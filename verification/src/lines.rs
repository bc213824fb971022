//! Line utilities over byte streams: splitting into lines, collecting lines
//! onto a stack, emitting them in reverse, and filtering them by a search
//! term. A line runs up to and including its newline byte; a final fragment
//! without a newline is a line of its own.

use crate::stack::Stack;
use crate::stream::extend_bytes;
use vstd::prelude::*;

verus! {

/// How many bytes the first line of `s` takes: everything up to and
/// including the first newline, or all of `s` when it has none.
pub open spec fn line_len(s: Seq<u8>) -> int
    decreases s.len(),
{
    if s.len() == 0 {
        0
    } else if s.first() == 10u8 {
        1
    } else {
        1 + line_len(s.drop_first())
    }
}

/// The first line takes at least one byte and at most all of them.
pub proof fn lemma_line_len_bounds(s: Seq<u8>)
    ensures
        s.len() > 0 ==> 1 <= line_len(s),
        line_len(s) <= s.len(),
    decreases s.len(),
{
    if s.len() > 0 && s.first() != 10u8 {
        lemma_line_len_bounds(s.drop_first());
    }
}

/// The lines of `s`, in order.
pub open spec fn lines_spec(s: Seq<u8>) -> Seq<Seq<u8>>
    decreases s.len(),
    via lines_spec_decreases
{
    if s.len() == 0 {
        Seq::empty()
    } else {
        seq![s.take(line_len(s))] + lines_spec(s.skip(line_len(s)))
    }
}

#[via_fn]
proof fn lines_spec_decreases(s: Seq<u8>) {
    lemma_line_len_bounds(s);
}

proof fn lemma_line_len_found(s: Seq<u8>, p: int)
    requires
        0 <= p < s.len(),
        s[p] == 10u8,
        forall|k: int| 0 <= k < p ==> s[k] != 10u8,
    ensures
        line_len(s) == p + 1,
    decreases p,
{
    if p > 0 {
        let t = s.drop_first();
        assert forall|k: int| 0 <= k < p - 1 implies t[k] != 10u8 by {
            assert(t[k] == s[k + 1]);
        }
        assert(t[p - 1] == s[p]);
        lemma_line_len_found(t, p - 1);
    }
}

proof fn lemma_line_len_none(s: Seq<u8>)
    requires
        forall|k: int| 0 <= k < s.len() ==> s[k] != 10u8,
    ensures
        line_len(s) == s.len(),
    decreases s.len(),
{
    if s.len() > 0 {
        let t = s.drop_first();
        assert forall|k: int| 0 <= k < t.len() implies t[k] != 10u8 by {
            assert(t[k] == s[k + 1]);
        }
        lemma_line_len_none(t);
    }
}

/// Reads the line of `input` that starts at `start`: the bytes up to and
/// including the next newline, or everything left when there is none.
/// Returns the line and the position just after it, or `None` at the end.
pub fn read_line(input: &Vec<u8>, start: usize) -> (r: Option<(Vec<u8>, usize)>)
    requires
        start <= input@.len(),
    ensures
        match r {
            Some((line, end)) => {
                let rest = input@.skip(start as int);
                &&& start < input@.len()
                &&& end == start + line_len(rest)
                &&& end <= input@.len()
                &&& line@ == rest.take(line_len(rest))
            },
            None => start == input@.len(),
        },
{
    if start == input.len() {
        return None;
    }
    let mut buf: Vec<u8> = Vec::new();
    let mut i: usize = start;
    let mut done = false;
    while !done && i < input.len()
        invariant
            start <= i <= input@.len(),
            i <= input.len(),
            start < input@.len(),
            buf@ == input@.subrange(start as int, i as int),
            !done ==> forall|k: int| start <= k < i ==> input@[k] != 10u8,
            done ==> i > start && input@[i - 1] == 10u8 && (forall|k: int|
                start <= k < i - 1 ==> input@[k] != 10u8),
        decreases (if done {
            0int
        } else {
            1int
        }), input@.len() - i,
    {
        let c = input[i];
        buf.push(c);
        i = i + 1;
        proof {
            assert(input@.subrange(start as int, i - 1).push(input@[i - 1]) =~= input@.subrange(
                start as int,
                i as int,
            ));
        }
        if c == 10u8 {
            done = true;
        }
    }
    proof {
        let rest = input@.skip(start as int);
        if done {
            let p = i - 1 - start;
            assert forall|k: int| 0 <= k < p implies rest[k] != 10u8 by {
                assert(rest[k] == input@[start + k]);
            }
            assert(rest[p] == input@[i - 1]);
            lemma_line_len_found(rest, p);
        } else {
            assert forall|k: int| 0 <= k < rest.len() implies rest[k] != 10u8 by {
                assert(rest[k] == input@[start + k]);
            }
            lemma_line_len_none(rest);
        }
        assert(buf@ =~= rest.take(line_len(rest)));
    }
    Some((buf, i))
}

/// Collects the lines of `input` onto a stack, first line at the bottom, so
/// that popping hands the lines back from the last to the first.
pub fn collect_lines(input: &Vec<u8>) -> (r: Stack<Vec<u8>>)
    ensures
        r@.map_values(|l: Vec<u8>| l@) == lines_spec(input@),
{
    let mut stack: Stack<Vec<u8>> = Stack::new();
    let mut pos: usize = 0;
    proof {
        assert(input@.skip(0) =~= input@);
        assert(Seq::<Vec<u8>>::empty().map_values(|l: Vec<u8>| l@) =~= Seq::<Seq<u8>>::empty());
        assert(Seq::<Seq<u8>>::empty() + lines_spec(input@) =~= lines_spec(input@));
    }
    while pos < input.len()
        invariant
            pos <= input@.len(),
            stack@.map_values(|l: Vec<u8>| l@) + lines_spec(input@.skip(pos as int)) == lines_spec(
                input@,
            ),
        decreases input@.len() - pos,
    {
        let (line, end) = read_line(input, pos).unwrap();
        proof {
            let rest = input@.skip(pos as int);
            lemma_line_len_bounds(rest);
            assert(rest.skip(line_len(rest)) =~= input@.skip(end as int));
            let m = stack@.map_values(|l: Vec<u8>| l@);
            assert(stack@.push(line).map_values(|l: Vec<u8>| l@) =~= m.push(line@));
            assert(m + (seq![line@] + lines_spec(input@.skip(end as int))) =~= m.push(line@)
                + lines_spec(input@.skip(end as int)));
        }
        stack = stack.push(line);
        pos = end;
    }
    proof {
        assert(input@.skip(input@.len() as int) =~= Seq::<u8>::empty());
        assert(stack@.map_values(|l: Vec<u8>| l@) + lines_spec(Seq::<u8>::empty())
            =~= stack@.map_values(|l: Vec<u8>| l@));
    }
    stack
}

/// The given lines concatenated from the last back to the first.
pub open spec fn concat_rev(lines: Seq<Seq<u8>>) -> Seq<u8>
    decreases lines.len(),
{
    if lines.len() == 0 {
        Seq::empty()
    } else {
        lines.last() + concat_rev(lines.drop_last())
    }
}

/// Pops every line off the stack and concatenates them in pop order, so the
/// lines come out in the reverse of the order they were pushed.
pub fn write_lines_reversed(lines: Stack<Vec<u8>>) -> (r: Vec<u8>)
    ensures
        r@ == concat_rev(lines@.map_values(|l: Vec<u8>| l@)),
{
    let ghost orig = lines@.map_values(|l: Vec<u8>| l@);
    let mut out: Vec<u8> = Vec::new();
    let mut head = lines;
    let mut done = false;
    proof {
        assert(Seq::<u8>::empty() + concat_rev(orig) =~= concat_rev(orig));
    }
    while !done
        invariant
            concat_rev(orig) == out@ + concat_rev(head@.map_values(|l: Vec<u8>| l@)),
            done ==> head@.len() == 0,
        decreases head@.len() + (if done {
            0int
        } else {
            1int
        }),
    {
        match head.pop() {
            Some((line, rest)) => {
                let ghost before = out@;
                extend_bytes(&mut out, line);
                proof {
                    let m = head@.map_values(|l: Vec<u8>| l@);
                    let m2 = rest@.map_values(|l: Vec<u8>| l@);
                    assert(m.drop_last() =~= m2);
                    assert(m.last() == line@);
                    assert(before + (line@ + concat_rev(m2)) =~= (before + line@) + concat_rev(
                        m2,
                    ));
                }
                head = rest;
            },
            None => {
                done = true;
            },
        }
    }
    proof {
        assert(head@.map_values(|l: Vec<u8>| l@) =~= Seq::<Seq<u8>>::empty());
        assert(out@ + concat_rev(Seq::<Seq<u8>>::empty()) =~= out@);
    }
    out
}

/// `needle` occurs in `hay` as a contiguous subsequence (always true of an
/// empty needle).
pub open spec fn contains_seq(hay: Seq<u8>, needle: Seq<u8>) -> bool {
    exists|i: int|
        0 <= i <= hay.len() - needle.len() && #[trigger] hay.subrange(i, i + needle.len())
            == needle
}

/// Whether `needle` occurs in `hay` as a contiguous run of bytes.
pub fn contains_subseq(hay: &Vec<u8>, needle: &Vec<u8>) -> (r: bool)
    ensures
        r == contains_seq(hay@, needle@),
{
    let m = needle.len();
    if m > hay.len() {
        return false;
    }
    if m == 0 {
        proof {
            assert(hay@.subrange(0, 0 + needle@.len() as int) =~= needle@);
        }
        return true;
    }
    let mut i: usize = 0;
    while i <= hay.len() - m
        invariant
            m == needle@.len(),
            1 <= m <= hay@.len(),
            hay@.len() <= usize::MAX,
            i <= hay@.len() - m + 1,
            forall|k: int| 0 <= k < i ==> #[trigger] hay@.subrange(k, k + needle@.len())
                != needle@,
        decreases hay@.len() - m - i + 1,
    {
        let mut j: usize = 0;
        let mut mismatch = false;
        while j < m && !mismatch
            invariant
                m == needle@.len(),
                m <= hay@.len(),
                hay@.len() <= usize::MAX,
                i + m <= hay@.len(),
                j <= m,
                !mismatch ==> forall|k: int| 0 <= k < j ==> hay@[i + k] == needle@[k],
                mismatch ==> hay@.subrange(i as int, i + m) != needle@,
            decreases m - j + (if mismatch {
                0int
            } else {
                1int
            }),
        {
            if hay[i + j] != needle[j] {
                proof {
                    assert(hay@.subrange(i as int, i + m)[j as int] == hay@[i + j]);
                }
                mismatch = true;
            } else {
                j = j + 1;
            }
        }
        if !mismatch {
            proof {
                assert(hay@.subrange(i as int, i + m as int) =~= needle@);
            }
            return true;
        }
        i = i + 1;
    }
    proof {
        assert forall|k: int|
            0 <= k <= hay@.len() - needle@.len() implies #[trigger] hay@.subrange(
            k,
            k + needle@.len(),
        ) != needle@ by {}
    }
    false
}

/// The lines among `lines` that contain `term`, in order.
pub open spec fn matching_lines(lines: Seq<Seq<u8>>, term: Seq<u8>) -> Seq<Seq<u8>>
    decreases lines.len(),
{
    if lines.len() == 0 {
        Seq::empty()
    } else {
        let prev = matching_lines(lines.drop_last(), term);
        if contains_seq(lines.last(), term) {
            prev.push(lines.last())
        } else {
            prev
        }
    }
}

/// The lines of `input` that contain `term`, in order. Matching is byte for
/// byte; a line's trailing newline counts as part of it.
pub fn grep(input: &Vec<u8>, term: &Vec<u8>) -> (r: Vec<Vec<u8>>)
    ensures
        r@.map_values(|l: Vec<u8>| l@) == matching_lines(lines_spec(input@), term@),
{
    let mut out: Vec<Vec<u8>> = Vec::new();
    let mut pos: usize = 0;
    let ghost mut processed: Seq<Seq<u8>> = Seq::empty();
    proof {
        assert(input@.skip(0) =~= input@);
        assert(processed + lines_spec(input@) =~= lines_spec(input@));
        assert(out@.map_values(|l: Vec<u8>| l@) =~= matching_lines(processed, term@));
    }
    while pos < input.len()
        invariant
            pos <= input@.len(),
            processed + lines_spec(input@.skip(pos as int)) == lines_spec(input@),
            out@.map_values(|l: Vec<u8>| l@) == matching_lines(processed, term@),
        decreases input@.len() - pos,
    {
        let (line, end) = read_line(input, pos).unwrap();
        let keep = contains_subseq(&line, term);
        proof {
            let rest = input@.skip(pos as int);
            lemma_line_len_bounds(rest);
            assert(rest.skip(line_len(rest)) =~= input@.skip(end as int));
            let extended = processed.push(line@);
            assert(extended.drop_last() =~= processed);
            assert(extended.last() == line@);
            assert(processed + (seq![line@] + lines_spec(input@.skip(end as int))) =~= extended
                + lines_spec(input@.skip(end as int)));
        }
        if keep {
            let ghost before = out@.map_values(|l: Vec<u8>| l@);
            out.push(line);
            proof {
                assert(out@.map_values(|l: Vec<u8>| l@) =~= before.push(line@));
            }
        }
        proof {
            processed = processed.push(line@);
        }
        pos = end;
    }
    proof {
        assert(input@.skip(input@.len() as int) =~= Seq::<u8>::empty());
        assert(processed + lines_spec(Seq::<u8>::empty()) =~= processed);
    }
    out
}

} // verus!
