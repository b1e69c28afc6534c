//! What the menu of a list shows: its entries split into groups of at most
//! `GROUP_SIZE`, the title of each group and the caption of each entry.
use vstd::prelude::*;
use vstd::utf8::encode_utf8;
use vstd::string::StrSliceExecFns;
use crate::text::{
    all_digits, decimal, decimal_string, digits_value, law_decimal_reads_back, lemma_utf8_len_bound,
};

verus! {

/// Entries shown in the first group when a list is split.
pub const GROUP_SIZE: usize = 15;

/// Characters of a label shown in an entry's caption.
pub const CAPTION_CHARS: usize = 30;

/// The index ranges `(start, end)` of the groups of a list of `len` entries: one
/// group for all of them, or, past `GROUP_SIZE` entries, the first `GROUP_SIZE` and
/// then the rest.
pub open spec fn groups_of(len: nat) -> Seq<(int, int)> {
    if len > GROUP_SIZE {
        seq![(0int, GROUP_SIZE as int), (GROUP_SIZE as int, len as int)]
    } else {
        seq![(0int, len as int)]
    }
}

pub fn menu_groups(len: usize) -> (groups: Vec<(usize, usize)>)
    ensures
        groups@.len() == groups_of(len as nat).len(),
        forall|g: int|
            0 <= g < groups@.len() ==> (#[trigger] groups@[g]).0 as int == groups_of(len as nat)[g].0
                && groups@[g].1 as int == groups_of(len as nat)[g].1,
{
    let mut groups: Vec<(usize, usize)> = Vec::new();
    if len > GROUP_SIZE {
        groups.push((0, GROUP_SIZE));
        groups.push((GROUP_SIZE, len));
    } else {
        groups.push((0, len));
    }
    groups
}

/// Entry `x` lies in group `g` of a list of `len` entries.
pub open spec fn in_group(len: nat, g: int, x: int) -> bool {
    0 <= g < groups_of(len).len() && groups_of(len)[g].0 <= x < groups_of(len)[g].1
}

/// The group that entry `x` is listed in.
pub open spec fn group_of(len: nat, x: int) -> int {
    if len > GROUP_SIZE && x >= GROUP_SIZE {
        1
    } else {
        0
    }
}

/// The groups cover the list: they follow one another from index 0 to `len`, and
/// every entry is in exactly one group.
pub proof fn law_groups_partition(len: nat)
    ensures
        groups_of(len).len() > 0,
        groups_of(len)[0].0 == 0,
        groups_of(len).last().1 == len,
        forall|g: int|
            0 <= g < groups_of(len).len() ==> (#[trigger] groups_of(len)[g]).0 <= groups_of(len)[g].1,
        forall|g: int|
            0 <= g < groups_of(len).len() - 1 ==> (#[trigger] groups_of(len)[g]).1 == groups_of(
                len,
            )[g + 1].0,
        forall|x: int| 0 <= x < len ==> in_group(len, #[trigger] group_of(len, x), x),
        forall|x: int, g1: int, g2: int|
            #[trigger] in_group(len, g1, x) && #[trigger] in_group(len, g2, x) ==> g1 == g2,
{
}

/// A list of up to `GROUP_SIZE` entries has one group, a longer one two; the first
/// group holds the first `GROUP_SIZE` entries (all of them if fewer), and no group of a
/// non-empty list is empty.
pub proof fn law_groups_sizes(len: nat)
    ensures
        groups_of(len).len() == if len > GROUP_SIZE {
            2nat
        } else {
            1nat
        },
        groups_of(len)[0].1 - groups_of(len)[0].0 == if len > GROUP_SIZE {
            GROUP_SIZE as nat
        } else {
            len
        },
        len > 0 ==> forall|g: int|
            0 <= g < groups_of(len).len() ==> (#[trigger] groups_of(len)[g]).0 < groups_of(len)[g].1,
{
}

/// The title of the group of entries `start..end`: the first entry's number, counted
/// from 1, a dash, and the number of the last entry.
pub open spec fn title_of(start: nat, end: nat) -> Seq<char> {
    decimal(start + 1) + seq!['-'] + decimal(end)
}

pub fn group_title(start: usize, end: usize) -> (title: String)
    requires
        start < usize::MAX,
    ensures
        title@ == title_of(start as nat, end as nat),
{
    let mut title = decimal_string(start + 1);
    proof {
        reveal_strlit("-");
    }
    title.append("-");
    let last = decimal_string(end);
    title.append(last.as_str());
    title
}

/// A group's title is two decimal numbers joined by a dash: the number, counted from 1,
/// of its first entry, `start + 1`, and `end`.
pub proof fn law_title_numbers(start: nat, end: nat)
    ensures
        ({
            let t = title_of(start, end);
            exists|k: int|
                0 < k < t.len() && t[k] == '-' && all_digits(#[trigger] t.take(k)) && digits_value(
                    t.take(k),
                ) == start + 1 && all_digits(t.skip(k + 1)) && digits_value(t.skip(k + 1)) == end
                    && t.skip(k + 1).len() > 0
        }),
{
    law_decimal_reads_back(start + 1);
    law_decimal_reads_back(end);
    let a = decimal(start + 1);
    let t = title_of(start, end);
    let k = a.len() as int;
    assert(t.take(k) =~= a);
    assert(t.skip(k + 1) =~= decimal(end));
    assert(t[k] == '-');
}

/// The first `CAPTION_CHARS` characters of a label (all of it if shorter).
pub open spec fn caption_head(label: Seq<char>) -> Seq<char> {
    if label.len() < CAPTION_CHARS {
        label
    } else {
        label.take(CAPTION_CHARS as int)
    }
}

/// The caption of entry `index`: its number counted from 1, a colon, a space and the
/// head of its label, with "..." after a head of exactly `CAPTION_CHARS` bytes.
pub open spec fn caption_of(index: nat, label: Seq<char>) -> Seq<char> {
    let head = caption_head(label);
    decimal(index + 1) + seq![':', ' '] + head + if encode_utf8(head).len() == CAPTION_CHARS {
        seq!['.', '.', '.']
    } else {
        Seq::<char>::empty()
    }
}

/// The caption of entry `index` is its number counted from 1, `index + 1`, in decimal,
/// then ": ", then the first `CAPTION_CHARS` characters of the label (all of it if
/// shorter), followed by "..." exactly when those characters take `CAPTION_CHARS` bytes.
pub proof fn law_caption_number(index: nat, label: Seq<char>)
    ensures
        ({
            let t = caption_of(index, label);
            let m = if label.len() < CAPTION_CHARS {
                label.len() as int
            } else {
                CAPTION_CHARS as int
            };
            exists|k: int|
                0 < k && k + 2 <= t.len() && t[k] == ':' && t[k + 1] == ' ' && all_digits(
                    #[trigger] t.take(k),
                ) && digits_value(t.take(k)) == index + 1 && t.skip(k + 2) == label.take(m) + if encode_utf8(
                    label.take(m),
                ).len() == CAPTION_CHARS {
                    seq!['.', '.', '.']
                } else {
                    Seq::<char>::empty()
                }
        }),
{
    law_decimal_reads_back(index + 1);
    let a = decimal(index + 1);
    let t = caption_of(index, label);
    let k = a.len() as int;
    let m = if label.len() < CAPTION_CHARS {
        label.len() as int
    } else {
        CAPTION_CHARS as int
    };
    assert(caption_head(label) =~= label.take(m));
    assert(t.take(k) =~= a);
    assert(t[k] == ':');
    assert(t[k + 1] == ' ');
    let head = caption_head(label);
    if encode_utf8(head).len() == CAPTION_CHARS {
        assert(t.skip(k + 2) =~= label.take(m) + seq!['.', '.', '.']);
    } else {
        assert(t.skip(k + 2) =~= label.take(m) + Seq::<char>::empty());
    }
}

pub fn entry_caption(index: usize, label: &str) -> (caption: String)
    requires
        index < usize::MAX,
    ensures
        caption@ == caption_of(index as nat, label@),
{
    let mut caption = decimal_string(index + 1);
    proof {
        reveal_strlit(": ");
        reveal_strlit("...");
    }
    let ghost num = caption@;
    caption.append(": ");
    assert(caption@ =~= num + seq![':', ' ']);
    let n: usize = label.unicode_len();
    let m: usize = if n < CAPTION_CHARS {
        n
    } else {
        CAPTION_CHARS
    };
    let head = label.substring_char(0, m);
    assert(head@ =~= caption_head(label@));
    proof {
        lemma_utf8_len_bound(head@);
    }
    caption.append(head);
    let ghost before = caption@;
    if head.len() == CAPTION_CHARS {
        caption.append("...");
        assert(caption@ =~= before + seq!['.', '.', '.']);
    } else {
        assert(caption@ =~= before + Seq::<char>::empty());
    }
    assert(caption@ =~= caption_of(index as nat, label@));
    caption
}

} // verus!
