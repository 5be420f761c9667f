//! Character-level text helpers shared by the path layer: joining
//! slash-separated paths, file stems, and decimal rendering.

use vstd::prelude::*;
use vstd::string::*;

verus! {

/// The view of each string in a sequence of strings.
pub open spec fn views_of(s: Seq<String>) -> Seq<Seq<char>> {
    Seq::new(s.len(), |i: int| s[i]@)
}

/// The segments joined with a single `'/'` between consecutive segments.
pub open spec fn join_segments(segs: Seq<Seq<char>>) -> Seq<char>
    decreases segs.len(),
{
    if segs.len() == 0 {
        Seq::empty()
    } else if segs.len() == 1 {
        segs[0]
    } else {
        join_segments(segs.drop_last()) + seq!['/'] + segs.last()
    }
}

/// The largest index in `[1, upto)` holding `'.'`, or `-1` if there is none.
pub open spec fn last_dot_upto(s: Seq<char>, upto: int) -> int
    decreases upto,
{
    if upto <= 1 {
        -1
    } else if s[upto - 1] == '.' {
        upto - 1
    } else {
        last_dot_upto(s, upto - 1)
    }
}

/// The file stem of a name: everything before the last `'.'`, except that a
/// lone leading `'.'` does not begin an extension.
pub open spec fn stem_of(name: Seq<char>) -> Seq<char> {
    let d = last_dot_upto(name, name.len() as int);
    if d < 0 {
        name
    } else {
        name.subrange(0, d)
    }
}

/// The character for one decimal digit.
pub open spec fn decimal_digit(d: int) -> char {
    if d == 0 { '0' }
    else if d == 1 { '1' }
    else if d == 2 { '2' }
    else if d == 3 { '3' }
    else if d == 4 { '4' }
    else if d == 5 { '5' }
    else if d == 6 { '6' }
    else if d == 7 { '7' }
    else if d == 8 { '8' }
    else { '9' }
}

/// The usual decimal rendering of `n`, most significant digit first.
pub open spec fn decimal_of(n: nat) -> Seq<char>
    decreases n,
{
    if n < 10 {
        seq![decimal_digit(n as int)]
    } else {
        decimal_of(n / 10).push(decimal_digit((n % 10) as int))
    }
}

/// Relies on `String::push`: appends exactly one character.
#[verifier::external_body]
pub(crate) fn push_char(s: &mut String, c: char)
    ensures
        final(s)@ == old(s)@.push(c),
{
    s.push(c);
}

fn digit_char(d: u8) -> (c: char)
    requires
        d < 10,
    ensures
        c == decimal_digit(d as int),
{
    if d == 0 { '0' }
    else if d == 1 { '1' }
    else if d == 2 { '2' }
    else if d == 3 { '3' }
    else if d == 4 { '4' }
    else if d == 5 { '5' }
    else if d == 6 { '6' }
    else if d == 7 { '7' }
    else if d == 8 { '8' }
    else { '9' }
}

fn push_decimal(n: u64, out: &mut String)
    ensures
        final(out)@ == old(out)@ + decimal_of(n as nat),
    decreases n,
{
    if n >= 10 {
        push_decimal(n / 10, out);
    }
    let d = digit_char((n % 10) as u8);
    push_char(out, d);
    proof {
        if n < 10 {
            assert(old(out)@ + decimal_of(n as nat) =~= old(out)@.push(d));
        } else {
            assert(old(out)@ + decimal_of(n as nat) =~= (old(out)@ + decimal_of(
                (n / 10) as nat,
            )).push(d));
        }
    }
}

/// Renders `n` in decimal, most significant digit first.
pub fn u64_to_decimal(n: u64) -> (r: String)
    ensures
        r@ == decimal_of(n as nat),
{
    let mut out = String::new();
    push_decimal(n, &mut out);
    proof {
        assert(Seq::<char>::empty() + decimal_of(n as nat) =~= decimal_of(n as nat));
    }
    out
}

/// Joins path segments with `'/'`.
pub fn join_path(segs: &Vec<String>) -> (r: String)
    ensures
        r@ == join_segments(views_of(segs@)),
{
    let ghost gsegs: Seq<Seq<char>> = views_of(segs@);
    let mut out = String::new();
    let mut i: usize = 0;
    while i < segs.len()
        invariant
            i <= segs.len(),
            gsegs == views_of(segs@),
            gsegs.len() == segs@.len(),
            out@ == join_segments(gsegs.subrange(0, i as int)),
        decreases segs.len() - i,
    {
        if i > 0 {
            proof {
                reveal_strlit("/");
            }
            out.append("/");
        }
        out.append(segs[i].as_str());
        proof {
            assert(gsegs[i as int] == segs@[i as int]@);
            let pre = gsegs.subrange(0, i as int);
            let cur = gsegs.subrange(0, i as int + 1);
            assert(cur.drop_last() =~= pre);
            assert(cur.last() == gsegs[i as int]);
            if i == 0 {
                assert(join_segments(cur) == gsegs[0]);
                assert(Seq::<char>::empty() + gsegs[0] =~= gsegs[0]);
            } else {
                assert(join_segments(cur) == join_segments(pre) + seq!['/'] + gsegs[i as int]);
                assert("/"@ =~= seq!['/']);
            }
        }
        i += 1;
    }
    proof {
        assert(gsegs.subrange(0, segs@.len() as int) =~= gsegs);
    }
    out
}

/// The file stem of a name, as `std::path::Path::file_stem` computes it for
/// a file name: the part before the last `'.'`, with a lone leading `'.'`
/// kept.
pub fn file_stem(name: &String) -> (r: String)
    ensures
        r@ == stem_of(name@),
{
    let n = name.as_str().unicode_len();
    let mut dot: usize = 0;
    let mut found = false;
    let mut i: usize = 1;
    while i < n
        invariant
            1 <= i,
            i <= n || i == 1,
            n == name@.len(),
            found ==> 1 <= dot && dot < i && i <= n,
            (if found { dot as int } else { -1 }) == last_dot_upto(name@, i as int),
        decreases n - i,
    {
        if name.as_str().get_char(i) == '.' {
            dot = i;
            found = true;
        }
        i += 1;
    }
    proof {
        if n > 1 {
            assert(i == n);
        } else {
            assert(last_dot_upto(name@, name@.len() as int) == -1);
            assert(last_dot_upto(name@, i as int) == -1);
        }
    }
    if found {
        let s = name.as_str().substring_char(0, dot);
        String::from_str(s)
    } else {
        let r = name.clone();
        proof {
            assert(stem_of(name@) == name@);
        }
        r
    }
}

/// Clones a vector of strings, segment for segment.
pub fn clone_strings(v: &Vec<String>) -> (r: Vec<String>)
    ensures
        views_of(r@) == views_of(v@),
        r@.len() == v@.len(),
{
    let mut out: Vec<String> = Vec::new();
    proof {
        assert(views_of(out@) =~= views_of(v@).subrange(0, 0));
    }
    let mut i: usize = 0;
    while i < v.len()
        invariant
            i <= v@.len(),
            out@.len() == i,
            views_of(out@) == views_of(v@).subrange(0, i as int),
        decreases v@.len() - i,
    {
        let ghost o0: Seq<Seq<char>> = views_of(out@);
        out.push(v[i].clone());
        proof {
            assert(views_of(v@)[i as int] == v@[i as int]@);
            assert(views_of(out@) =~= o0.push(v@[i as int]@));
            assert(views_of(v@).subrange(0, i as int + 1) =~= views_of(v@).subrange(
                0,
                i as int,
            ).push(views_of(v@)[i as int]));
        }
        i += 1;
    }
    proof {
        assert(views_of(v@).subrange(0, v@.len() as int) =~= views_of(v@));
    }
    out
}

} // verus!
