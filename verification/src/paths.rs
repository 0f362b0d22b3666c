//! Canonicalization of raw route strings.
//!
//! A route string is modelled as a sequence of characters; its segments are
//! the maximal nonempty runs between '/' characters.  Normalization drops a
//! leading "api" segment and a following version segment ("v" plus digits),
//! and re-joins the rest behind a single leading '/'.

use vstd::prelude::*;
use vstd::string::*;

use crate::ext::push_char;

verus! {

// ---------------------------------------------------------------------------
// Specification model
// ---------------------------------------------------------------------------

/// Segments of `s` when a (possibly empty) segment `cur` is already underway.
pub open spec fn split_acc(s: Seq<char>, cur: Seq<char>) -> Seq<Seq<char>>
    decreases s.len(),
{
    if s.len() == 0 {
        if cur.len() == 0 {
            Seq::empty()
        } else {
            seq![cur]
        }
    } else if s[0] == '/' {
        if cur.len() == 0 {
            split_acc(s.drop_first(), Seq::empty())
        } else {
            seq![cur] + split_acc(s.drop_first(), Seq::empty())
        }
    } else {
        split_acc(s.drop_first(), cur.push(s[0]))
    }
}

/// The nonempty '/'-separated segments of a route string.
pub open spec fn segments_of(s: Seq<char>) -> Seq<Seq<char>> {
    split_acc(s, Seq::empty())
}

pub open spec fn is_digit_char(c: char) -> bool {
    48 <= c as u32 <= 57
}

/// The literal prefix segment "api".
pub open spec fn api_seg() -> Seq<char> {
    seq!['a', 'p', 'i']
}

/// A version segment: 'v' followed by one or more ASCII digits.
pub open spec fn is_version_seg(seg: Seq<char>) -> bool {
    &&& seg.len() > 1
    &&& seg[0] == 'v'
    &&& forall|i: int| 1 <= i < seg.len() ==> is_digit_char(#[trigger] seg[i])
}

/// How many leading segments normalization strips: an "api" segment if
/// present, then a version segment if present.
pub open spec fn strip_count(segs: Seq<Seq<char>>) -> int {
    let a: int = if segs.len() > 0 && segs[0] == api_seg() {
        1
    } else {
        0
    };
    if a < segs.len() && is_version_seg(segs[a]) {
        a + 1
    } else {
        a
    }
}

pub open spec fn strip_prefix(segs: Seq<Seq<char>>) -> Seq<Seq<char>> {
    segs.skip(strip_count(segs))
}

/// '/'-prefixed concatenation of segments; empty for no segments.
pub open spec fn join_segs(segs: Seq<Seq<char>>) -> Seq<char>
    decreases segs.len(),
{
    if segs.len() == 0 {
        Seq::empty()
    } else {
        seq!['/'] + segs[0] + join_segs(segs.drop_first())
    }
}

/// A segment list rendered as a route string: "/" when there are no segments.
pub open spec fn render_segs(segs: Seq<Seq<char>>) -> Seq<char> {
    if segs.len() == 0 {
        seq!['/']
    } else {
        join_segs(segs)
    }
}

/// The canonical form of a route string.
pub open spec fn normalize_spec(s: Seq<char>) -> Seq<char> {
    render_segs(strip_prefix(segments_of(s)))
}

/// The resource key of a route string: its first segment, '/'-prefixed.
pub open spec fn root_spec(s: Seq<char>) -> Seq<char> {
    if segments_of(s).len() == 0 {
        seq!['/']
    } else {
        seq!['/'] + segments_of(s)[0]
    }
}

/// A well-formed segment: nonempty, and free of '/'.
pub open spec fn wf_seg(seg: Seq<char>) -> bool {
    seg.len() > 0 && (forall|i: int| 0 <= i < seg.len() ==> #[trigger] seg[i] != '/')
}

pub open spec fn wf_segs(segs: Seq<Seq<char>>) -> bool {
    forall|i: int| 0 <= i < segs.len() ==> wf_seg(#[trigger] segs[i])
}

// ---------------------------------------------------------------------------
// Lemmas about the model
// ---------------------------------------------------------------------------

proof fn lemma_split_acc_wf(s: Seq<char>, cur: Seq<char>)
    requires
        forall|i: int| 0 <= i < cur.len() ==> #[trigger] cur[i] != '/',
    ensures
        wf_segs(split_acc(s, cur)),
    decreases s.len(),
{
    if s.len() == 0 {
    } else if s[0] == '/' {
        lemma_split_acc_wf(s.drop_first(), Seq::empty());
        if cur.len() > 0 {
            assert forall|i: int| 0 <= i < split_acc(s, cur).len() implies wf_seg(
                #[trigger] split_acc(s, cur)[i],
            ) by {
                if i == 0 {
                    assert(split_acc(s, cur)[0] == cur);
                } else {
                    assert(split_acc(s, cur)[i] == split_acc(s.drop_first(), Seq::empty())[i - 1]);
                }
            }
        }
    } else {
        lemma_split_acc_wf(s.drop_first(), cur.push(s[0]));
    }
}

/// Every segment produced by splitting is nonempty and free of '/'.
pub proof fn lemma_segments_wf(s: Seq<char>)
    ensures
        wf_segs(segments_of(s)),
{
    lemma_split_acc_wf(s, Seq::empty());
}

proof fn lemma_split_acc_seg(seg: Seq<char>, rest: Seq<char>, cur: Seq<char>)
    requires
        forall|i: int| 0 <= i < seg.len() ==> #[trigger] seg[i] != '/',
    ensures
        split_acc(seg + rest, cur) == split_acc(rest, cur + seg),
    decreases seg.len(),
{
    if seg.len() == 0 {
        assert(seg + rest =~= rest);
        assert(cur + seg =~= cur);
    } else {
        assert((seg + rest)[0] == seg[0]);
        assert((seg + rest).drop_first() =~= seg.drop_first() + rest);
        lemma_split_acc_seg(seg.drop_first(), rest, cur.push(seg[0]));
        assert(cur.push(seg[0]) + seg.drop_first() =~= cur + seg);
    }
}

proof fn lemma_split_join(segs: Seq<Seq<char>>)
    requires
        wf_segs(segs),
    ensures
        split_acc(join_segs(segs), Seq::empty()) == segs,
    decreases segs.len(),
{
    if segs.len() == 0 {
    } else {
        let s0 = segs[0];
        let rest = segs.drop_first();
        let jr = join_segs(rest);
        let j = join_segs(segs);
        assert(wf_seg(s0));
        assert(j == seq!['/'] + s0 + jr);
        assert(j[0] == '/');
        assert(j.drop_first() =~= s0 + jr);
        lemma_split_acc_seg(s0, jr, Seq::empty());
        assert(Seq::<char>::empty() + s0 =~= s0);
        // split_acc(j, []) == split_acc(jr, s0)
        if rest.len() == 0 {
            assert(jr.len() == 0);
            assert(split_acc(jr, s0) == seq![s0]);
            assert(segs =~= seq![s0]);
        } else {
            assert(wf_segs(rest)) by {
                assert(forall|i: int|
                    0 <= i < rest.len() ==> #[trigger] rest[i] == segs[i + 1]);
            }
            lemma_split_join(rest);
            assert(jr == seq!['/'] + rest[0] + join_segs(rest.drop_first()));
            assert(jr[0] == '/');
            // with a nonempty current segment, a leading '/' emits it
            assert(split_acc(jr, s0) == seq![s0] + split_acc(jr.drop_first(), Seq::empty()));
            assert(split_acc(jr, Seq::empty()) == split_acc(jr.drop_first(), Seq::empty()));
            assert(segs =~= seq![s0] + rest);
        }
    }
}

/// Splitting inverts rendering, for well-formed segment lists.
pub proof fn lemma_segments_of_render(segs: Seq<Seq<char>>)
    requires
        wf_segs(segs),
    ensures
        segments_of(render_segs(segs)) == segs,
{
    if segs.len() == 0 {
        let slash = seq!['/'];
        reveal_with_fuel(split_acc, 3);
        assert(slash.drop_first() =~= Seq::<char>::empty());
        assert(segments_of(slash) =~= Seq::<Seq<char>>::empty());
    } else {
        lemma_split_join(segs);
    }
}

proof fn lemma_wf_skip(segs: Seq<Seq<char>>, k: int)
    requires
        wf_segs(segs),
        0 <= k <= segs.len(),
    ensures
        wf_segs(segs.skip(k)),
{
    assert(forall|i: int| 0 <= i < segs.skip(k).len() ==> #[trigger] segs.skip(k)[i] == segs[i + k]);
}

/// Idempotence of normalization.
///
/// Normalizing an already-normalized route changes nothing, provided the
/// stripped segment list does not itself begin with another strippable
/// prefix: normalization is not idempotent on a route such as
/// "/api/api/users", whose first pass exposes a second "api" segment.
pub proof fn lemma_normalize_idempotent(p: Seq<char>)
    requires
        strip_prefix(strip_prefix(segments_of(p))) == strip_prefix(segments_of(p)),
    ensures
        normalize_spec(normalize_spec(p)) == normalize_spec(p),
{
    let segs = segments_of(p);
    let st = strip_prefix(segs);
    lemma_segments_wf(p);
    assert(0 <= strip_count(segs) <= segs.len());
    lemma_wf_skip(segs, strip_count(segs));
    lemma_segments_of_render(st);
}

// ---------------------------------------------------------------------------
// Executable code
// ---------------------------------------------------------------------------

/// The characters of a string slice, in order.
fn str_chars(s: &str) -> (r: Vec<char>)
    ensures
        r@ == s@,
{
    let n = s.unicode_len();
    let mut r: Vec<char> = Vec::new();
    let mut i: usize = 0;
    while i < n
        invariant
            i <= n,
            n == s@.len(),
            r@ == s@.take(i as int),
        decreases n - i,
    {
        let c = s.get_char(i);
        r.push(c);
        proof {
            assert(s@.take(i + 1) =~= s@.take(i as int).push(s@[i as int]));
        }
        i += 1;
    }
    proof {
        assert(s@.take(n as int) =~= s@);
    }
    r
}

/// A string holding exactly the given characters.
fn chars_to_string(cs: &Vec<char>) -> (r: String)
    ensures
        r@ == cs@,
{
    let mut r = String::new();
    let mut i: usize = 0;
    while i < cs.len()
        invariant
            i <= cs.len(),
            r@ == cs@.take(i as int),
        decreases cs.len() - i,
    {
        push_char(&mut r, cs[i]);
        proof {
            assert(cs@.take(i + 1) =~= cs@.take(i as int).push(cs@[i as int]));
        }
        i += 1;
    }
    proof {
        assert(cs@.take(cs.len() as int) =~= cs@);
    }
    r
}

pub open spec fn seg_views(v: Seq<Vec<char>>) -> Seq<Seq<char>> {
    v.map_values(|x: Vec<char>| x@)
}

/// Split characters into nonempty '/'-separated segments.
fn split_chars(cs: &Vec<char>) -> (r: Vec<Vec<char>>)
    ensures
        seg_views(r@) == segments_of(cs@),
{
    let mut done: Vec<Vec<char>> = Vec::new();
    let mut cur: Vec<char> = Vec::new();
    let mut i: usize = 0;
    proof {
        assert(cs@.skip(0) =~= cs@);
        assert(seg_views(done@) =~= Seq::<Seq<char>>::empty());
        assert(seg_views(done@) + split_acc(cs@, Seq::<char>::empty()) =~= split_acc(
            cs@,
            Seq::<char>::empty(),
        ));
    }
    while i < cs.len()
        invariant
            i <= cs.len(),
            segments_of(cs@) == seg_views(done@) + split_acc(cs@.skip(i as int), cur@),
        decreases cs.len() - i,
    {
        let c = cs[i];
        proof {
            assert(cs@.skip(i as int).len() == cs@.len() - i);
            assert(cs@.skip(i as int)[0] == cs@[i as int]);
            assert(cs@.skip(i as int).drop_first() =~= cs@.skip(i + 1));
        }
        if c == '/' {
            if cur.len() > 0 {
                let ghost done0 = done@;
                let ghost cur0 = cur@;
                proof {
                    assert(split_acc(cs@.skip(i as int), cur0) == seq![cur0] + split_acc(
                        cs@.skip(i + 1),
                        Seq::<char>::empty(),
                    ));
                }
                done.push(cur);
                cur = Vec::new();
                proof {
                    assert(seg_views(done@) =~= seg_views(done0).push(cur0));
                    assert(seg_views(done0) + (seq![cur0] + split_acc(
                        cs@.skip(i + 1),
                        Seq::<char>::empty(),
                    )) =~= seg_views(done0).push(cur0) + split_acc(
                        cs@.skip(i + 1),
                        Seq::<char>::empty(),
                    ));
                }
            } else {
                proof {
                    assert(split_acc(cs@.skip(i as int), cur@) == split_acc(
                        cs@.skip(i + 1),
                        Seq::<char>::empty(),
                    ));
                    assert(cur@ =~= Seq::<char>::empty());
                }
            }
        } else {
            let ghost cur0 = cur@;
            proof {
                assert(split_acc(cs@.skip(i as int), cur0) == split_acc(
                    cs@.skip(i + 1),
                    cur0.push(cs@[i as int]),
                ));
            }
            cur.push(c);
            proof {
                assert(cur@ =~= cur0.push(cs@[i as int]));
            }
        }
        i += 1;
    }
    proof {
        assert(cs@.skip(cs.len() as int) =~= Seq::<char>::empty());
    }
    if cur.len() > 0 {
        let ghost done0 = done@;
        let ghost cur0 = cur@;
        done.push(cur);
        proof {
            assert(seg_views(done@) =~= seg_views(done0).push(cur0));
            assert(seg_views(done0) + seq![cur0] =~= seg_views(done0).push(cur0));
        }
    } else {
        proof {
            assert(seg_views(done@) + Seq::<Seq<char>>::empty() =~= seg_views(done@));
        }
    }
    done
}

/// Whether a segment is exactly "api".
fn seg_is_api(s: &Vec<char>) -> (b: bool)
    ensures
        b == (s@ == api_seg()),
{
    let b = s.len() == 3 && s[0] == 'a' && s[1] == 'p' && s[2] == 'i';
    proof {
        if b {
            assert(s@ =~= api_seg());
        }
    }
    b
}

/// Whether a segment is a version segment: 'v' followed by digits.
fn seg_is_version(s: &Vec<char>) -> (b: bool)
    ensures
        b == is_version_seg(s@),
{
    if s.len() <= 1 {
        return false;
    }
    if s[0] != 'v' {
        return false;
    }
    let mut i: usize = 1;
    while i < s.len()
        invariant
            1 <= i <= s@.len(),
            s@.len() > 1,
            s@[0] == 'v',
            forall|k: int| 1 <= k < i ==> is_digit_char(#[trigger] s@[k]),
        decreases s.len() - i,
    {
        let u = s[i] as u32;
        if u < 48 || u > 57 {
            assert(!is_digit_char(s@[i as int]));
            return false;
        }
        i += 1;
    }
    true
}

proof fn lemma_join_snoc(segs: Seq<Seq<char>>, x: Seq<char>)
    ensures
        join_segs(segs.push(x)) == join_segs(segs) + seq!['/'] + x,
    decreases segs.len(),
{
    if segs.len() == 0 {
        reveal_with_fuel(join_segs, 3);
        assert(segs.push(x)[0] == x);
        assert(segs.push(x).drop_first() =~= Seq::<Seq<char>>::empty());
        assert(join_segs(segs.push(x)) =~= seq!['/'] + x);
        assert(join_segs(segs) + seq!['/'] + x =~= seq!['/'] + x);
    } else {
        assert(segs.push(x)[0] == segs[0]);
        assert(segs.push(x).drop_first() =~= segs.drop_first().push(x));
        lemma_join_snoc(segs.drop_first(), x);
        assert(seq!['/'] + segs[0] + (join_segs(segs.drop_first()) + seq!['/'] + x)
            =~= (seq!['/'] + segs[0] + join_segs(segs.drop_first())) + seq!['/'] + x);
    }
}

/// Canonicalize a raw route string.
///
/// Empty segments collapse; a leading "api" segment is dropped; a following
/// "v" + digits segment is dropped; the rest is re-joined behind a single
/// leading '/'.  Every input maps to some canonical route; the empty string
/// maps to "/".
pub fn normalize_path(path: &str) -> (r: String)
    ensures
        r@ == normalize_spec(path@),
{
    let cs = str_chars(path);
    let segs = split_chars(&cs);
    let ghost sv = seg_views(segs@);
    let mut start: usize = 0;
    if segs.len() > 0 {
        if seg_is_api(&segs[0]) {
            start = 1;
        }
    }
    if start < segs.len() {
        if seg_is_version(&segs[start]) {
            start = start + 1;
        }
    }
    assert(start as int == strip_count(sv));
    if start == segs.len() {
        proof {
            assert(sv.skip(start as int).len() == 0);
        }
        let r = "/".to_owned();
        proof {
            reveal_strlit("/");
            assert(r@ =~= seq!['/']);
        }
        r
    } else {
        let mut out: Vec<char> = Vec::new();
        let ghost stripped = sv.skip(start as int);
        let mut j: usize = start;
        while j < segs.len()
            invariant
                start <= j <= segs.len(),
                sv == seg_views(segs@),
                stripped == sv.skip(start as int),
                out@ == join_segs(stripped.take(j - start)),
            decreases segs.len() - j,
        {
            let ghost out0 = out@;
            out.push('/');
            let seg = &segs[j];
            let mut t: usize = 0;
            while t < seg.len()
                invariant
                    t <= seg@.len(),
                    seg@ == sv[j as int],
                    out@ == out0 + seq!['/'] + seg@.take(t as int),
                decreases seg.len() - t,
            {
                out.push(seg[t]);
                proof {
                    assert(out@ =~= out0 + seq!['/'] + seg@.take(t + 1));
                }
                t += 1;
            }
            proof {
                assert(seg@.take(seg@.len() as int) =~= seg@);
                lemma_join_snoc(stripped.take(j - start), sv[j as int]);
                assert(stripped.take(j - start).push(sv[j as int]) =~= stripped.take(
                    j + 1 - start,
                ));
            }
            j += 1;
        }
        proof {
            assert(stripped.take(segs.len() - start) =~= stripped);
        }
        chars_to_string(&out)
    }
}

/// The resource key of a route: its first nonempty segment behind '/';
/// "/" when the route has no segments.
pub fn get_root_path(path: &str) -> (r: String)
    ensures
        r@ == root_spec(path@),
{
    let cs = str_chars(path);
    let segs = split_chars(&cs);
    if segs.len() == 0 {
        let r = "/".to_owned();
        proof {
            reveal_strlit("/");
            assert(r@ =~= seq!['/']);
        }
        r
    } else {
        let mut out: Vec<char> = Vec::new();
        out.push('/');
        let seg = &segs[0];
        let mut t: usize = 0;
        while t < seg.len()
            invariant
                t <= seg@.len(),
                seg@ == seg_views(segs@)[0],
                out@ == seq!['/'] + seg@.take(t as int),
            decreases seg.len() - t,
        {
            out.push(seg[t]);
            proof {
                assert(out@ =~= seq!['/'] + seg@.take(t + 1));
            }
            t += 1;
        }
        proof {
            assert(seg@.take(seg@.len() as int) =~= seg@);
        }
        chars_to_string(&out)
    }
}

} // verus!
