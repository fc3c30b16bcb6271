//! The drawing of a set: one row of labels, since the elements of a set stand
//! side by side in one sorted run.

use vstd::prelude::*;
use vstd::string::StringExecFns;

verus! {

/// The labels one after another, parted by a comma and a blank.
pub open spec fn joined(labels: Seq<Seq<char>>) -> Seq<char>
    decreases labels.len(),
{
    if labels.len() == 0 {
        Seq::empty()
    } else if labels.len() == 1 {
        labels[0]
    } else {
        joined(labels.drop_last()) + seq![',', ' '] + labels.last()
    }
}

/// The drawing of a run of elements with these labels: the labels between
/// square brackets, parted by a comma and a blank.
pub open spec fn drawn(labels: Seq<Seq<char>>) -> Seq<char> {
    seq!['['] + joined(labels) + seq![']']
}

/// The text of each label.
pub open spec fn texts(labels: Seq<String>) -> Seq<Seq<char>> {
    labels.map_values(|label: String| label@)
}

/// Draws a run of elements with these labels.
pub fn draw(labels: &Vec<String>) -> (drawing: String)
    ensures
        drawing@ == drawn(texts(labels@)),
{
    let mut drawing = String::new();
    proof {
        reveal_strlit("[");
        reveal_strlit("]");
    }
    drawing.append("[");
    let mut i: usize = 0;
    while i < labels.len()
        invariant
            0 <= i <= labels@.len(),
            drawing@ == seq!['['] + joined(texts(labels@.take(i as int))),
        decreases labels@.len() - i,
    {
        proof {
            reveal_strlit(", ");
            assert(texts(labels@.take(i + 1)).drop_last() =~= texts(labels@.take(i as int)));
        }
        if i > 0 {
            drawing.append(", ");
        }
        drawing.append(labels[i].as_str());
        i = i + 1;
    }
    proof {
        assert(labels@.take(i as int) =~= labels@);
    }
    drawing.append("]");
    drawing
}

} // verus!
