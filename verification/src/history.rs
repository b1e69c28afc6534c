//! The lists the application keeps: the history of copied texts and the saved
//! values with their labels, and what each user action does to them.
use vstd::prelude::*;
use crate::text::{trim, trim_str};

verus! {

/// Number of copied texts the menu keeps.
pub const RECENT_CAP: usize = 30;

/// Keeps the newest `RECENT_CAP` copied texts and drops the older ones.
pub fn cap_recent(history: &mut Vec<String>)
    ensures
        final(history)@ == if old(history)@.len() > RECENT_CAP {
            old(history)@.take(RECENT_CAP as int)
        } else {
            old(history)@
        },
{
    if history.len() > RECENT_CAP {
        history.truncate(RECENT_CAP);
    }
}

/// A text that was just copied goes in front of the history.
pub fn record_copy(history: &mut Vec<String>, copied: String)
    ensures
        final(history)@ == seq![copied] + old(history)@,
{
    history.insert(0, copied);
    assert(history@ =~= seq![copied] + old(history)@);
}

/// Picking entry `x` of a menu: the trimmed entry goes to the clipboard, and the
/// list to store has the entry once more in front.
pub fn pick_entry(values: &Vec<String>, x: usize) -> (res: (String, Vec<String>))
    requires
        x < values.len(),
    ensures
        res.0@ == trim(values@[x as int]@),
        res.1@ == seq![values@[x as int]] + values@,
{
    let clip = trim_str(values[x].as_str()).to_owned();
    let mut updated = values.clone();
    updated.insert(0, values[x].clone());
    assert(updated@ =~= seq![values@[x as int]] + values@);
    (clip, updated)
}

/// Deleting saved entry `i`: its label and its value leave their lists.
pub fn remove_saved(labels: &mut Vec<String>, values: &mut Vec<String>, i: usize)
    requires
        i < old(labels).len(),
        i < old(values).len(),
    ensures
        final(labels)@ == old(labels)@.remove(i as int),
        final(values)@ == old(values)@.remove(i as int),
{
    labels.remove(i);
    values.remove(i);
}

/// Saving a new entry: its label and its value go at the end of their lists.
pub fn add_saved(labels: &mut Vec<String>, values: &mut Vec<String>, label: String, value: String)
    ensures
        final(labels)@ == old(labels)@.push(label),
        final(values)@ == old(values)@.push(value),
{
    labels.push(label);
    values.push(value);
}

/// Saving and deleting keep the labels and the values paired: lists of equal length
/// stay of equal length, and every entry that stays keeps its label.
pub proof fn law_saved_pairs_stay_aligned(
    labels: Seq<String>,
    values: Seq<String>,
    i: int,
    label: String,
    value: String,
)
    requires
        labels.len() == values.len(),
        0 <= i < labels.len(),
    ensures
        labels.push(label).len() == values.push(value).len(),
        forall|j: int|
            0 <= j < labels.len() ==> labels.push(label)[j] == labels[j] && values.push(value)[j]
                == values[j],
        labels.remove(i).len() == values.remove(i).len(),
        forall|j: int|
            #![trigger labels.remove(i)[j]]
            0 <= j < labels.len() - 1 ==> {
                let k: int = if j < i {
                    j
                } else {
                    j + 1
                };
                labels.remove(i)[j] == labels[k] && values.remove(i)[j] == values[k]
            },
{
}

} // verus!
