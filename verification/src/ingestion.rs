//! The record-level part of ingestion: line selection applied to raw input,
//! and the construction of the initial message batch. Reading files, the
//! anonymization pass and its cache belong to the ingestion collaborator
//! around the library.

use vstd::prelude::*;

use crate::opts::{Message, MessageInner, SpecMessage, SpecMessageInner};
use crate::text::strs_view;

verus! {

/// What line trimming keeps: everything after the first `head` lines and
/// before the last `tail` lines (nothing when fewer lines than that).
pub open spec fn trimmed(lines: Seq<Seq<char>>, head: int, tail: int) -> Seq<Seq<char>> {
    if head + tail >= lines.len() {
        Seq::empty()
    } else {
        lines.subrange(head, lines.len() - tail)
    }
}

/// Drop the first `head` and the last `tail` lines of the input.
pub fn trim_lines(lines: Vec<String>, head: u32, tail: u32) -> (r: Vec<String>)
    ensures
        strs_view(r@) == trimmed(strs_view(lines@), head as int, tail as int),
{
    let ghost full = strs_view(lines@);
    let n = lines.len();
    if n <= head as usize || n - head as usize <= tail as usize {
        let r: Vec<String> = Vec::new();
        proof {
            assert(strs_view(r@) =~= trimmed(full, head as int, tail as int));
        }
        return r;
    }
    let stop = n - tail as usize;
    let mut rest = lines;
    let mut r: Vec<String> = Vec::new();
    let mut i: usize = head as usize;
    while i < stop
        invariant
            head as usize <= i <= stop,
            stop == full.len() - tail as int,
            head + tail < full.len(),
            rest@.len() == full.len(),
            strs_view(rest@) == full,
            r@.len() == i - head as usize,
            forall|k: int| 0 <= k < r@.len() ==> r@[k]@ == full[head + k],
        decreases stop - i,
    {
        let s = rest[i].clone();
        r.push(s);
        i += 1;
    }
    proof {
        assert(strs_view(r@) =~= trimmed(full, head as int, tail as int));
    }
    r
}

/// One message per ingested record: an empty mediation map, the record as
/// payload, and the given date tag.
pub fn make_messages(payloads: Vec<String>, date: &String) -> (r: Vec<Message>)
    ensures
        crate::execution::msgs_view(r@).len() == payloads@.len(),
        forall|i: int|
            0 <= i < payloads@.len() ==> crate::execution::msgs_view(r@)[i] == (SpecMessage {
                inner: SpecMessageInner {
                    billingmediation: Seq::empty(),
                    payload: payloads@[i]@,
                },
                date: date@,
            }),
{
    let ghost full = payloads@;
    let mut rest = payloads;
    let mut r: Vec<Message> = Vec::new();
    while rest.len() > 0
        invariant
            r@.len() + rest@.len() == full.len(),
            rest@ == full.skip(r@.len() as int),
            forall|i: int|
                0 <= i < r@.len() ==> r@[i]@ == (SpecMessage {
                    inner: SpecMessageInner {
                        billingmediation: Seq::empty(),
                        payload: full[i]@,
                    },
                    date: date@,
                }),
        decreases rest@.len(),
    {
        let ghost done = r@.len() as int;
        let payload = rest.remove(0);
        proof {
            assert(payload == full[done]);
        }
        let bm: crate::opts::JsonObj = Vec::new();
        proof {
            assert(crate::json::view_obj(bm@) =~= Seq::<
                (Seq<char>, crate::json::SpecJson),
            >::empty());
        }
        r.push(Message { inner: MessageInner { billingmediation: bm, payload }, date: date.clone() });
        proof {
            assert(rest@ =~= full.skip(r@.len() as int));
        }
    }
    r
}

/// The lines whose flag is set, in order.
pub open spec fn kept(lines: Seq<Seq<char>>, keep: Seq<bool>) -> Seq<Seq<char>>
    decreases lines.len(),
    when lines.len() == keep.len()
{
    if lines.len() == 0 {
        Seq::empty()
    } else {
        (if keep[0] {
            seq![lines[0]]
        } else {
            Seq::empty()
        }) + kept(lines.drop_first(), keep.drop_first())
    }
}

/// The composed line selection of ingestion: drop the first `head` lines,
/// keep the flagged ones among the rest, then drop the last `tail` of what
/// is left. `keep[i]` is the filter's verdict on `lines[i]`.
pub open spec fn selected(lines: Seq<Seq<char>>, keep: Seq<bool>, head: int, tail: int) -> Seq<
    Seq<char>,
> {
    let h = if head <= lines.len() {
        head
    } else {
        lines.len() as int
    };
    trimmed(kept(lines.skip(h), keep.skip(h)), 0, tail)
}

/// Apply the whole line selection: head skip, per-line filter flags, tail
/// truncation, in that order.
pub fn select_lines(lines: Vec<String>, keep: &Vec<bool>, head: u32, tail: u32) -> (r: Vec<String>)
    requires
        keep@.len() == lines@.len(),
    ensures
        strs_view(r@) == selected(strs_view(lines@), keep@, head as int, tail as int),
{
    let ghost lv = strs_view(lines@);
    let ghost kp = keep@;
    let n = lines.len();
    let h: usize = if (head as usize) <= n {
        head as usize
    } else {
        n
    };
    let mut mid: Vec<String> = Vec::new();
    let mut i: usize = h;
    proof {
        assert(strs_view(mid@) =~= Seq::<Seq<char>>::empty());
    }
    while i < n
        invariant
            h <= i <= n,
            n == lv.len(),
            lv == strs_view(lines@),
            kp == keep@,
            kp.len() == lv.len(),
            kept(lv.skip(h as int), kp.skip(h as int)) == strs_view(mid@) + kept(
                lv.skip(i as int),
                kp.skip(i as int),
            ),
        decreases n - i,
    {
        let ghost mid0 = strs_view(mid@);
        let flagged = keep[i];
        if flagged {
            let line = lines[i].clone();
            mid.push(line);
        }
        i += 1;
        proof {
            assert(lv.skip(i - 1)[0] == lv[i - 1]);
            assert(kp.skip(i - 1)[0] == kp[i - 1]);
            assert(lv.skip(i - 1).drop_first() =~= lv.skip(i as int));
            assert(kp.skip(i - 1).drop_first() =~= kp.skip(i as int));
            if flagged {
                assert(strs_view(mid@) =~= mid0 + seq![lv[i - 1]]);
                assert(mid0 + (seq![lv[i - 1]] + kept(lv.skip(i as int), kp.skip(i as int)))
                    =~= strs_view(mid@) + kept(lv.skip(i as int), kp.skip(i as int)));
            } else {
                assert(strs_view(mid@) =~= mid0);
                assert(Seq::<Seq<char>>::empty() + kept(lv.skip(i as int), kp.skip(i as int))
                    =~= kept(lv.skip(i as int), kp.skip(i as int)));
            }
        }
    }
    proof {
        assert(lv.skip(n as int) =~= Seq::<Seq<char>>::empty());
        assert(kp.skip(n as int) =~= Seq::<bool>::empty());
        assert(strs_view(mid@) + kept(lv.skip(n as int), kp.skip(n as int)) =~= strs_view(mid@));
    }
    trim_lines(mid, 0, tail)
}

} // verus!
