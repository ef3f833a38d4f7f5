//! The dictionary assembler: the order of the records, the header, and the
//! text of the dictionary.

use vstd::prelude::*;
use vstd::seq_lib::{to_multiset_insert, to_multiset_remove};
use vstd::utf8::encode_utf8;
use vstd::string::StringExecFns;
use crate::row::{records_view, DataItem, Record};
use crate::text::{law_replaced_without_match, occurs_in, replace_first, replaced};

verus! {

/// Whether `a` comes before `b`, or is `b`, in the lexicographic order of
/// byte strings.
pub open spec fn lex_le(a: Seq<u8>, b: Seq<u8>) -> bool
    decreases a.len(),
{
    if a.len() == 0 {
        true
    } else if b.len() == 0 {
        false
    } else if a[0] == b[0] {
        lex_le(a.skip(1), b.skip(1))
    } else {
        a[0] < b[0]
    }
}

/// Every byte string is ordered before or as itself.
pub proof fn lemma_lex_le_reflexive(a: Seq<u8>)
    ensures
        lex_le(a, a),
    decreases a.len(),
{
    if a.len() > 0 {
        lemma_lex_le_reflexive(a.skip(1));
    }
}

/// Of two byte strings one is ordered before or as the other.
pub proof fn lemma_lex_le_total(a: Seq<u8>, b: Seq<u8>)
    ensures
        lex_le(a, b) || lex_le(b, a),
    decreases a.len(),
{
    if a.len() > 0 && b.len() > 0 && a[0] == b[0] {
        lemma_lex_le_total(a.skip(1), b.skip(1));
    }
}

/// The order of byte strings is transitive.
pub proof fn lemma_lex_le_transitive(a: Seq<u8>, b: Seq<u8>, c: Seq<u8>)
    requires
        lex_le(a, b),
        lex_le(b, c),
    ensures
        lex_le(a, c),
    decreases a.len(),
{
    if a.len() > 0 && b.len() > 0 && c.len() > 0 && a[0] == b[0] && b[0] == c[0] {
        lemma_lex_le_transitive(a.skip(1), b.skip(1), c.skip(1));
    }
}

/// Whether the byte string `a` comes strictly before `b`.
pub fn bytes_less(a: &[u8], b: &[u8]) -> (less: bool)
    ensures
        less == !lex_le(b@, a@),
{
    let mut i: usize = 0;
    assert(a@.skip(0) =~= a@);
    assert(b@.skip(0) =~= b@);
    while i < a.len() && i < b.len()
        invariant
            i <= a@.len(),
            i <= b@.len(),
            lex_le(b@, a@) == lex_le(b@.skip(i as int), a@.skip(i as int)),
        decreases a@.len() - i,
    {
        if a[i] != b[i] {
            return a[i] < b[i];
        }
        assert(a@.skip(i as int).skip(1) =~= a@.skip(i + 1));
        assert(b@.skip(i as int).skip(1) =~= b@.skip(i + 1));
        i += 1;
    }
    i < b.len()
}

/// Whether the tag `a` comes before `b`, or is `b`, in the order of the
/// dictionary: the lexicographic order of the tags as UTF-8 text.
pub open spec fn tag_le(a: Seq<char>, b: Seq<char>) -> bool {
    lex_le(encode_utf8(a), encode_utf8(b))
}

/// Whether the tag `a` comes strictly before the tag `b`.
pub fn tag_less(a: &str, b: &str) -> (less: bool)
    ensures
        less == !tag_le(b@, a@),
{
    bytes_less(a.as_bytes(), b.as_bytes())
}

/// Whether records are in the order of their tags.
pub open spec fn sorted_by_tag(records: Seq<Record>) -> bool {
    forall|i: int, j: int|
        0 <= i < j < records.len() ==> tag_le(
            (#[trigger] records[i]).tag,
            (#[trigger] records[j]).tag,
        )
}

/// The test for a record's tag being `tag`.
pub open spec fn has_tag(tag: Seq<char>) -> spec_fn(Record) -> bool {
    |record: Record| record.tag == tag
}

/// Whether `sorted` holds the records of `unsorted` in the order of their
/// tags, records with one tag in the order in which they stand in
/// `unsorted`.
pub open spec fn is_stable_sort(sorted: Seq<Record>, unsorted: Seq<Record>) -> bool {
    &&& sorted_by_tag(sorted)
    &&& sorted.to_multiset() == unsorted.to_multiset()
    &&& forall|tag: Seq<char>|
        #[trigger] sorted.filter(has_tag(tag)) == unsorted.filter(has_tag(tag))
}

/// Two byte strings that are each ordered before or as the other are one.
pub proof fn lemma_lex_le_antisymmetric(a: Seq<u8>, b: Seq<u8>)
    requires
        lex_le(a, b),
        lex_le(b, a),
    ensures
        a == b,
    decreases a.len(),
{
    if a.len() > 0 {
        lemma_lex_le_antisymmetric(a.skip(1), b.skip(1));
        assert(a =~= seq![a[0]] + a.skip(1));
        assert(b =~= seq![b[0]] + b.skip(1));
    } else {
        assert(a =~= b);
    }
}

/// Two tags that are each ordered before or as the other are one tag.
pub proof fn lemma_tag_le_antisymmetric(a: Seq<char>, b: Seq<char>)
    requires
        tag_le(a, b),
        tag_le(b, a),
    ensures
        a == b,
{
    lemma_lex_le_antisymmetric(encode_utf8(a), encode_utf8(b));
    vstd::utf8::encode_utf8_decode_utf8(a);
    vstd::utf8::encode_utf8_decode_utf8(b);
}

/// The records with a tag, where the first record is taken off the list.
proof fn lemma_tag_list_of_tail(records: Seq<Record>, tag: Seq<char>)
    requires
        records.len() > 0,
    ensures
        records.filter(has_tag(tag)) == (if records[0].tag == tag {
            seq![records[0]]
        } else {
            Seq::<Record>::empty()
        }) + records.skip(1).filter(has_tag(tag)),
{
    let pred = has_tag(tag);
    let one = Seq::<Record>::empty().push(records[0]);
    assert(records =~= one + records.skip(1));
    Seq::filter_distributes_over_add(one, records.skip(1), pred);
    Seq::<Record>::empty().lemma_filter_push(records[0], pred);
    Seq::<Record>::empty().lemma_filter_len(pred);
    assert(Seq::<Record>::empty().filter(pred) =~= Seq::<Record>::empty());
    assert(one.filter(pred) =~= if records[0].tag == tag {
        seq![records[0]]
    } else {
        Seq::<Record>::empty()
    });
}

/// In a sorted list that holds a record with the tag `tag`, the first
/// record's tag is ordered before or as `tag`.
proof fn lemma_first_tag_is_least(records: Seq<Record>, tag: Seq<char>)
    requires
        sorted_by_tag(records),
        records.filter(has_tag(tag)).len() > 0,
    ensures
        records.len() > 0,
        tag_le(records[0].tag, tag),
{
    let pred = has_tag(tag);
    let found = records.filter(pred)[0];
    records.lemma_filter_pred(pred, 0);
    assert(records.filter(pred).contains(found));
    records.lemma_filter_contains_rev(pred, found);
    let j = choose|j: int| 0 <= j < records.len() && records[j] == found;
    if j == 0 {
        lemma_lex_le_reflexive(encode_utf8(tag));
    } else {
        assert(tag_le(records[0].tag, records[j].tag));
    }
}

/// Two sorted lists of one length that hold, for every tag, the same
/// records with that tag in the same order are one list.
proof fn lemma_sorted_lists_agree(a: Seq<Record>, b: Seq<Record>)
    requires
        sorted_by_tag(a),
        sorted_by_tag(b),
        a.len() == b.len(),
        forall|tag: Seq<char>| #[trigger] a.filter(has_tag(tag)) == b.filter(has_tag(tag)),
    ensures
        a == b,
    decreases a.len(),
{
    if a.len() == 0 {
        assert(a =~= b);
    } else {
        let ta = a[0].tag;
        let tb = b[0].tag;
        lemma_tag_list_of_tail(a, ta);
        lemma_tag_list_of_tail(b, tb);
        assert(a.filter(has_tag(ta)) == b.filter(has_tag(ta)));
        assert(a.filter(has_tag(tb)) == b.filter(has_tag(tb)));
        assert(a.filter(has_tag(ta)).len() > 0);
        assert(b.filter(has_tag(tb)).len() > 0);
        lemma_first_tag_is_least(b, ta);
        lemma_first_tag_is_least(a, tb);
        lemma_tag_le_antisymmetric(ta, tb);
        assert(a.filter(has_tag(ta))[0] == a[0]);
        assert(b.filter(has_tag(ta))[0] == b[0]);
        assert(a[0] == b[0]);
        let a_tail = a.skip(1);
        let b_tail = b.skip(1);
        assert forall|tag: Seq<char>| #[trigger]
            a_tail.filter(has_tag(tag)) == b_tail.filter(has_tag(tag)) by {
            lemma_tag_list_of_tail(a, tag);
            lemma_tag_list_of_tail(b, tag);
            assert(a.filter(has_tag(tag)) == b.filter(has_tag(tag)));
            let head = if a[0].tag == tag {
                seq![a[0]]
            } else {
                Seq::<Record>::empty()
            };
            let x = a_tail.filter(has_tag(tag));
            let y = b_tail.filter(has_tag(tag));
            assert(head + x == head + y);
            assert(x.len() == y.len()) by {
                assert((head + x).len() == (head + y).len());
            }
            assert(x =~= y) by {
                assert forall|i: int| 0 <= i < x.len() implies x[i] == y[i] by {
                    assert((head + x)[head.len() + i] == x[i]);
                    assert((head + y)[head.len() + i] == y[i]);
                }
            }
        }
        assert(sorted_by_tag(a_tail)) by {
            assert forall|i: int, j: int| 0 <= i < j < a_tail.len() implies tag_le(
                (#[trigger] a_tail[i]).tag,
                (#[trigger] a_tail[j]).tag,
            ) by {
                assert(tag_le(a[i + 1].tag, a[j + 1].tag));
            }
        }
        assert(sorted_by_tag(b_tail)) by {
            assert forall|i: int, j: int| 0 <= i < j < b_tail.len() implies tag_le(
                (#[trigger] b_tail[i]).tag,
                (#[trigger] b_tail[j]).tag,
            ) by {
                assert(tag_le(b[i + 1].tag, b[j + 1].tag));
            }
        }
        lemma_sorted_lists_agree(a_tail, b_tail);
        assert(a =~= seq![a[0]] + a_tail);
        assert(b =~= seq![b[0]] + b_tail);
    }
}

/// A list of records has one stable sort and no other.
pub proof fn law_stable_sort_is_unique(a: Seq<Record>, b: Seq<Record>, unsorted: Seq<Record>)
    requires
        is_stable_sort(a, unsorted),
        is_stable_sort(b, unsorted),
    ensures
        a == b,
{
    vstd::seq_lib::to_multiset_len(a);
    vstd::seq_lib::to_multiset_len(b);
    vstd::seq_lib::to_multiset_len(unsorted);
    assert forall|tag: Seq<char>| #[trigger] a.filter(has_tag(tag)) == b.filter(has_tag(tag)) by {
        assert(a.filter(has_tag(tag)) == unsorted.filter(has_tag(tag)));
        assert(b.filter(has_tag(tag)) == unsorted.filter(has_tag(tag)));
    }
    lemma_sorted_lists_agree(a, b);
}

/// Moving a record forward over records with other tags changes for no
/// tag the list of the records that have it.
proof fn lemma_move_keeps_tag_lists(records: Seq<Record>, from: int, to: int, tag: Seq<char>)
    requires
        0 <= to <= from < records.len(),
        forall|k: int| to <= k < from ==> (#[trigger] records[k]).tag != records[from].tag,
    ensures
        records.remove(from).insert(to, records[from]).filter(has_tag(tag)) == records.filter(
            has_tag(tag),
        ),
{
    let pred = has_tag(tag);
    let x = records[from];
    let a = records.subrange(0, to);
    let b = records.subrange(to, from);
    let c = records.subrange(from + 1, records.len() as int);
    let one = Seq::<Record>::empty().push(x);
    assert(records =~= ((a + b) + one) + c);
    assert(records.remove(from).insert(to, x) =~= ((a + one) + b) + c);
    Seq::filter_distributes_over_add(a + b, one, pred);
    Seq::filter_distributes_over_add((a + b) + one, c, pred);
    Seq::filter_distributes_over_add(a, b, pred);
    Seq::filter_distributes_over_add(a, one, pred);
    Seq::filter_distributes_over_add(a + one, b, pred);
    Seq::filter_distributes_over_add((a + one) + b, c, pred);
    Seq::<Record>::empty().lemma_filter_push(x, pred);
    assert(Seq::<Record>::empty().filter(pred) =~= Seq::<Record>::empty()) by {
        Seq::<Record>::empty().lemma_filter_len(pred);
    }
    if pred(x) {
        assert(b.all(|r: Record| !pred(r))) by {
            assert forall|k: int| 0 <= k < b.len() implies !pred(#[trigger] b[k]) by {
                assert(b[k] == records[to + k]);
            }
        }
        b.lemma_all_neg_filter_empty(pred);
        assert(b.filter(pred) =~= Seq::<Record>::empty());
        assert((a.filter(pred) + b.filter(pred)) + one.filter(pred) =~= (a.filter(pred)
            + one.filter(pred)) + b.filter(pred));
    } else {
        assert(one.filter(pred) =~= Seq::<Record>::empty());
        assert((a.filter(pred) + b.filter(pred)) + one.filter(pred) =~= (a.filter(pred)
            + one.filter(pred)) + b.filter(pred));
    }
}

/// Sorts the records by tag. The sort is stable: records with one tag keep
/// their order.
pub fn sort_by_tag(items: &mut Vec<DataItem>)
    ensures
        is_stable_sort(records_view(final(items)@), records_view(old(items)@)),
{
    let ghost unsorted = records_view(items@);
    let n = items.len();
    let mut i: usize = 0;
    while i < n
        invariant
            n == items@.len(),
            i <= n,
            unsorted == records_view(old(items)@),
            sorted_by_tag(records_view(items@).take(i as int)),
            records_view(items@).to_multiset() == unsorted.to_multiset(),
            forall|tag: Seq<char>| #[trigger]
                records_view(items@).filter(has_tag(tag)) == unsorted.filter(has_tag(tag)),
        decreases n - i,
    {
        let ghost before = records_view(items@);
        let mut to: usize = i;
        while to > 0 && tag_less(items[i].tag.as_str(), items[to - 1].tag.as_str())
            invariant
                n == items@.len(),
                i < n,
                to <= i,
                before == records_view(items@),
                forall|k: int| to <= k < i ==> !tag_le((#[trigger] before[k]).tag, before[i as int].tag),
            decreases to,
        {
            to -= 1;
        }
        let ghost x = before[i as int];
        proof {
            assert forall|k: int| to <= k < i implies (#[trigger] before[k]).tag != x.tag by {
                lemma_lex_le_reflexive(encode_utf8(x.tag));
            }
            assert forall|tag: Seq<char>| #[trigger]
                before.remove(i as int).insert(to as int, x).filter(has_tag(tag))
                    == unsorted.filter(has_tag(tag)) by {
                lemma_move_keeps_tag_lists(before, i as int, to as int, tag);
            }
            to_multiset_remove(before, i as int);
            to_multiset_insert(before.remove(i as int), to as int, x);
            assert(before.to_multiset().contains(x)) by {
                vstd::seq_lib::to_multiset_contains(before, x);
            }
            assert(before.to_multiset().remove(x).insert(x) =~= before.to_multiset());
        }
        if to < i {
            let item = items.remove(i);
            items.insert(to, item);
        }
        proof {
            let after = records_view(items@);
            assert(after =~= before.remove(i as int).insert(to as int, x));
            assert forall|a: int, b: int| 0 <= a < b < i + 1 implies tag_le(
                (#[trigger] after.take(i + 1)[a]).tag,
                (#[trigger] after.take(i + 1)[b]).tag,
            ) by {
                let old_a = if a < to { a } else if a == to { i as int } else { a - 1 };
                let old_b = if b < to { b } else if b == to { i as int } else { b - 1 };
                assert(after[a] == before[old_a]);
                assert(after[b] == before[old_b]);
                if b == to {
                    // a < to: before[a] <= before[to - 1] <= x
                    assert(tag_le(before.take(i as int)[to - 1].tag, x.tag));
                    if a < to - 1 {
                        assert(tag_le(
                            before.take(i as int)[a].tag,
                            before.take(i as int)[to - 1].tag,
                        ));
                        lemma_lex_le_transitive(
                            encode_utf8(before[a].tag),
                            encode_utf8(before[to - 1].tag),
                            encode_utf8(x.tag),
                        );
                    }
                } else if a == to {
                    lemma_lex_le_total(encode_utf8(x.tag), encode_utf8(before[old_b].tag));
                } else {
                    assert(tag_le(
                        before.take(i as int)[old_a].tag,
                        before.take(i as int)[old_b].tag,
                    ));
                }
            }
        }
        i += 1;
    }
    assert(records_view(items@).take(n as int) =~= records_view(items@));
}

/// The header that a template gives: the first two `${DICOM_VERSION}` are
/// filled by the edition, then the first `${DATE}`, the first `${USER}` and
/// the first `${HOST}` of what results by the date, the user and the host.
/// Everything else stays as it is.
pub open spec fn filled_header(
    template: Seq<char>,
    version: Seq<char>,
    date: Seq<char>,
    user: Seq<char>,
    host: Seq<char>,
) -> Seq<char> {
    replaced(
        replaced(
            replaced(replaced(template, "${DICOM_VERSION}"@, version, 2), "${DATE}"@, date, 1),
            "${USER}"@,
            user,
            1,
        ),
        "${HOST}"@,
        host,
        1,
    )
}

/// Fills the placeholders of a header template.
pub fn fill_header(template: &str, version: &str, date: &str, user: &str, host: &str) -> (header:
    String)
    ensures
        header@ == filled_header(template@, version@, date@, user@, host@),
{
    let with_version = replace_first(template, "${DICOM_VERSION}", version, 2);
    let with_date = replace_first(with_version.as_str(), "${DATE}", date, 1);
    let with_user = replace_first(with_date.as_str(), "${USER}", user, 1);
    replace_first(with_user.as_str(), "${HOST}", host, 1)
}

/// A template that holds none of the four placeholders is its own header:
/// whatever else it holds stays as it is.
pub proof fn law_header_without_placeholders(
    template: Seq<char>,
    version: Seq<char>,
    date: Seq<char>,
    user: Seq<char>,
    host: Seq<char>,
)
    requires
        !occurs_in(template, "${DICOM_VERSION}"@),
        !occurs_in(template, "${DATE}"@),
        !occurs_in(template, "${USER}"@),
        !occurs_in(template, "${HOST}"@),
    ensures
        filled_header(template, version, date, user, host) == template,
{
    law_replaced_without_match(template, "${DICOM_VERSION}"@, version, 2);
    law_replaced_without_match(template, "${DATE}"@, date, 1);
    law_replaced_without_match(template, "${USER}"@, user, 1);
    law_replaced_without_match(template, "${HOST}"@, host, 1);
}

/// The line of a record: its six texts with tabs between them, the name in
/// double quotes.
pub open spec fn record_line(record: Record) -> Seq<char> {
    record.tag + "\t\""@ + record.name + "\"\t"@ + record.keyword + "\t"@ + record.vr + "\t"@
        + record.vm + "\t"@ + record.version
}

/// The line of an entry.
pub fn format_line(item: &DataItem) -> (line: String)
    ensures
        line@ == record_line(item@),
{
    let mut line = item.tag.clone();
    line.append("\t\"");
    line.append(item.name.as_str());
    line.append("\"\t");
    line.append(item.keyword.as_str());
    line.append("\t");
    line.append(item.vr.as_str());
    line.append("\t");
    line.append(item.vm.as_str());
    line.append("\t");
    line.append(item.version.as_str());
    line
}

/// The lines of the records, with a line feed between one line and the
/// next and none at the end.
pub open spec fn record_lines(records: Seq<Record>) -> Seq<char>
    decreases records.len(),
{
    if records.len() == 0 {
        Seq::empty()
    } else if records.len() == 1 {
        record_line(records[0])
    } else {
        record_lines(records.drop_last()) + "\n"@ + record_line(records.last())
    }
}

/// The text of a dictionary: the header, a line feed, and the lines of the
/// records.
pub open spec fn dictionary_text(header: Seq<char>, records: Seq<Record>) -> Seq<char> {
    header + "\n"@ + record_lines(records)
}

/// The text of the dictionary with this header and these entries, in the
/// order in which they stand.
pub fn render_dictionary(header: &str, items: &Vec<DataItem>) -> (text: String)
    ensures
        text@ == dictionary_text(header@, records_view(items@)),
{
    let ghost records = records_view(items@);
    let mut text = String::from_str(header);
    text.append("\n");
    let mut i: usize = 0;
    assert(records.take(0) =~= Seq::<Record>::empty());
    assert(text@ + Seq::<char>::empty() =~= text@);
    while i < items.len()
        invariant
            i <= items@.len(),
            records == records_view(items@),
            text@ == header@ + "\n"@ + record_lines(records.take(i as int)),
        decreases items@.len() - i,
    {
        let ghost so_far = text@;
        let ghost head = header@ + "\n"@;
        if i > 0 {
            text.append("\n");
        }
        let line = format_line(&items[i]);
        text.append(line.as_str());
        proof {
            let next = records.take(i + 1);
            assert(next.drop_last() =~= records.take(i as int));
            assert(next.last() == items@[i as int]@);
            if i > 0 {
                assert(text@ =~= head + (record_lines(records.take(i as int)) + "\n"@
                    + record_line(next.last())));
            } else {
                assert(record_lines(records.take(0)) =~= Seq::<char>::empty());
                assert(text@ =~= head + record_line(next[0]));
            }
        }
        i += 1;
    }
    assert(records.take(items@.len() as int) =~= records);
    text
}

} // verus!
