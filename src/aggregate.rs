//! The single pass over a text: each line is decoded and folded into its
//! type's counters as soon as it is read.

use vstd::prelude::*;
use vstd::slice::{slice_subrange, slice_to_vec};
use vstd::utf8::encode_utf8;
use crate::lines::{lines_from, lines_of, strip_cr, CR, LF};
use crate::message::{message_type, InvalidMessageError, Message};
use crate::stats::{
    all_records, bumped, groups_view, keys_unique, lemma_order_independent, lemma_type_bounds, lemma_tally_push,
    lemma_view_entries,
    tally, total_bytes, type_count, GroupStats, Groups,
};

verus! {

/// The lines of a text, taken over its UTF-8 bytes.
pub open spec fn text_lines(text: Seq<char>) -> Seq<Seq<u8>> {
    lines_of(encode_utf8(text))
}

/// What a failed run reports of `lines`: the first line that is not a record.
pub open spec fn reports_first_invalid(lines: Seq<Seq<u8>>, e: InvalidMessageError) -> bool {
    &&& 1 <= e.line_number <= lines.len()
    &&& e.line@ == lines[e.line_number - 1]
    &&& message_type(lines[e.line_number - 1]) is None
    &&& all_records(lines.subrange(0, e.line_number - 1))
}

/// Where the first line that is not a record is line `k + 1`, a run fails,
/// and it reports that line whatever the lines after it hold.
pub proof fn lemma_fail_fast(lines: Seq<Seq<u8>>, k: int, e: InvalidMessageError)
    requires
        0 <= k < lines.len(),
        message_type(lines[k]) is None,
        all_records(lines.subrange(0, k)),
        reports_first_invalid(lines, e),
    ensures
        !all_records(lines),
        e.line_number == k + 1,
{
    let n = e.line_number - 1;
    if n < k {
        assert(lines.subrange(0, k)[n] == lines[n]);
    } else if n > k {
        assert(lines.subrange(0, n)[k] == lines[k]);
    }
}

/// Two texts whose lines are the same multiset either both hold only
/// records, and then group to the same counters, or both fail.
pub proof fn lemma_permuted_texts(x: Seq<char>, y: Seq<char>)
    requires
        text_lines(x).to_multiset() == text_lines(y).to_multiset(),
    ensures
        all_records(text_lines(x)) == all_records(text_lines(y)),
        tally(text_lines(x)) == tally(text_lines(y)),
{
    lemma_order_independent(text_lines(x), text_lines(y));
}

/// Decodes one line and folds it into `groups`, or reports it as line
/// number `line_number`.
fn fold_line(groups: &mut Groups, line: &[u8], line_number: usize) -> (r: Result<
    (),
    InvalidMessageError,
>)
    requires
        old(groups).wf(),
        forall|t: Seq<char>|
            #[trigger] groups_view(old(groups).entries_seq()).contains_key(t) ==> {
                &&& 0 <= groups_view(old(groups).entries_seq())[t].0 < i32::MAX
                &&& groups_view(old(groups).entries_seq())[t].1 + line@.len() <= usize::MAX
            },
    ensures
        r is Ok <==> message_type(line@) is Some,
        r is Ok ==> final(groups).wf() && groups_view(final(groups).entries_seq()) == bumped(
            groups_view(old(groups).entries_seq()),
            message_type(line@)->Some_0,
            line@.len() as int,
        ),
        r matches Err(e) ==> e.line_number == line_number && e.line@ == line@,
{
    match Message::try_from(line) {
        Ok(m) => {
            groups.add_message(m.type_, line.len());
            Ok(())
        },
        Err(cause) => Err(InvalidMessageError { line_number, line: slice_to_vec(line), cause }),
    }
}

/// Groups the lines of `value` by their `type`: each type that occurs, with
/// the number of its lines and the sum of their raw byte lengths. Fails at
/// the first line that is not a JSON object with a text `type` member.
pub fn group_messages(value: String) -> (r: Result<Vec<(String, GroupStats)>, InvalidMessageError>)
    requires
        text_lines(value@).len() <= i32::MAX,
    ensures
        r is Ok <==> all_records(text_lines(value@)),
        r matches Ok(g) ==> keys_unique(g@) && groups_view(g@) == tally(text_lines(value@)),
        r matches Err(e) ==> reports_first_invalid(text_lines(value@), e),
        text_lines(value@).len() == 0 ==> (r matches Ok(g) && g@.len() == 0),
        r matches Ok(g) ==> (g@.len() == 0 <==> text_lines(value@).len() == 0),
{
    let b = value.as_str().as_bytes();
    let ghost bytes = b@;
    let ghost lines = lines_of(bytes);
    let mut groups = Groups::new();
    let ghost mut done: Seq<Seq<u8>> = Seq::empty();
    let mut count: usize = 0;
    let mut start: usize = 0;
    let mut i: usize = 0;
    while i < b.len()
        invariant
            b@ == bytes,
            bytes == encode_utf8(value@),
            lines == lines_of(bytes),
            lines.len() <= i32::MAX,
            0 <= start <= i <= bytes.len(),
            lines == done + lines_from(bytes, start as int, i as int),
            all_records(done),
            groups.wf(),
            groups_view(groups.entries_seq()) == tally(done),
            total_bytes(done) <= start,
            count == done.len(),
        decreases bytes.len() - i,
    {
        if b[i] == LF {
            let mut end = i;
            if end > start && b[end - 1] == CR {
                end = end - 1;
            }
            let line = slice_subrange(b, start, end);
            assert(line@ == strip_cr(bytes.subrange(start as int, i as int)));
            assert(lines_from(bytes, start as int, i as int) == seq![line@] + lines_from(
                bytes,
                i + 1,
                i + 1,
            ));
            assert(lines[done.len() as int] == line@);
            proof {
                assert forall|t: Seq<char>| #[trigger] groups_view(groups.entries_seq()).contains_key(t) implies {
                    &&& 0 <= groups_view(groups.entries_seq())[t].0 < i32::MAX
                    &&& groups_view(groups.entries_seq())[t].1 + line@.len() <= usize::MAX
                } by {
                    lemma_type_bounds(done, t);
                }
            }
            match fold_line(&mut groups, line, count + 1) {
                Ok(()) => {},
                Err(e) => {
                    assert(lines.subrange(0, done.len() as int) =~= done);
                    return Err(e);
                },
            }
            proof {
                lemma_tally_push(done, line@, message_type(line@)->Some_0);
                let old_done = done;
                done = done.push(line@);
                assert(done.drop_last() =~= old_done);
                assert(lines =~= done + lines_from(bytes, i + 1, i + 1));
            }
            count = count + 1;
            start = i + 1;
        }
        i = i + 1;
    }
    if start < b.len() {
        let line = slice_subrange(b, start, b.len());
        assert(lines_from(bytes, start as int, i as int) == seq![line@]);
        assert(lines[done.len() as int] == line@);
        proof {
            assert forall|t: Seq<char>| #[trigger] groups_view(groups.entries_seq()).contains_key(t) implies {
                &&& 0 <= groups_view(groups.entries_seq())[t].0 < i32::MAX
                &&& groups_view(groups.entries_seq())[t].1 + line@.len() <= usize::MAX
            } by {
                lemma_type_bounds(done, t);
            }
        }
        match fold_line(&mut groups, line, count + 1) {
            Ok(()) => {},
            Err(e) => {
                assert(lines.subrange(0, done.len() as int) =~= done);
                return Err(e);
            },
        }
        proof {
            lemma_tally_push(done, line@, message_type(line@)->Some_0);
            let old_done = done;
            done = done.push(line@);
            assert(done.drop_last() =~= old_done);
        }
    }
    assert(lines =~= done);
    let entries = groups.into_entries();
    proof {
        if lines.len() == 0 && entries@.len() > 0 {
            lemma_view_entries(entries@);
            assert(groups_view(entries@).contains_key(entries@[0].0@));
        }
        if lines.len() > 0 {
            let t = message_type(lines.last())->Some_0;
            assert(message_type(lines[lines.len() - 1]) is Some);
            assert(type_count(lines, t) > 0);
            assert(tally(lines).contains_key(t));
            if entries@.len() == 0 {
                assert(groups_view(entries@) == Map::<Seq<char>, (int, int)>::empty());
            }
        }
    }
    Ok(entries)
}

} // verus!
