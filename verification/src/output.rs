//! Graphviz labels of query graph nodes and edges.
use crate::ast::{concat_strs, concat_views};
use vstd::prelude::*;

verus! {

/// The label attribute of an edge displayed as `text`: none for an empty text.
pub fn label_edge(text: &str) -> (res: String)
    ensures
        text@.len() == 0 ==> res@ == Seq::<char>::empty(),
        text@.len() != 0 ==> res@ == "label=\""@ + text@ + "\""@,
{
    if text.unicode_len() == 0 {
        String::new()
    } else {
        let res = concat_strs(&["label=\"", text, "\""]);
        proof {
            reveal_with_fuel(concat_views, 4);
        }
        assert(res@ =~= "label=\""@ + text@ + "\""@);
        res
    }
}

/// The label attribute of a node of the type `type_label`.
pub fn label_node(type_label: &str) -> (res: String)
    ensures
        res@ == "label=\""@ + type_label@ + "\""@,
{
    let res = concat_strs(&["label=\"", type_label, "\""]);
    proof {
        reveal_with_fuel(concat_views, 4);
    }
    assert(res@ =~= "label=\""@ + type_label@ + "\""@);
    res
}

} // verus!
