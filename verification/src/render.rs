//! The layout output boundary: the page extent the layout resolves
//! against, and the depth-first flattening of the box tree that the
//! external painter consumes.

use vstd::prelude::*;
use crate::layout::{
    BoxV, LayoutBox, box_size, box_view, boxes_size, boxes_view, lemma_boxes_size_elem,
    lemma_boxes_view, lemma_boxes_view_concat, lemma_boxes_view_push,
};

verus! {

/// The page width every block box ultimately spans.
pub const WIDTH: u32 = 600;

/// The page height.
pub const HEIGHT: u32 = 600;

/// The painter's order: each box (its subtree still attached), then its
/// subtree, depth first.
pub open spec fn spec_flatten(bs: Seq<BoxV>) -> Seq<BoxV>
    decreases boxes_size(bs),
    via spec_flatten_dec
{
    if bs.len() == 0 {
        Seq::empty()
    } else {
        seq![bs[0]] + spec_flatten(bs[0].children) + spec_flatten(bs.subrange(1, bs.len() as int))
    }
}

#[via_fn]
proof fn spec_flatten_dec(bs: Seq<BoxV>) {
    if bs.len() > 0 {
        assert(boxes_size(bs) == box_size(bs[0]) + boxes_size(bs.subrange(1, bs.len() as int)));
        assert(box_size(bs[0]) == 1 + boxes_size(bs[0].children));
    }
}

/// Flattens a box tree into the ordered, depth-first sequence the painter
/// consumes.
#[verifier::loop_isolation(false)]
pub fn layout_box_tree_to_vector(boxes_tree: Vec<LayoutBox>) -> (r: Vec<LayoutBox>)
    ensures
        boxes_view(r@) == spec_flatten(boxes_view(boxes_tree@)),
    decreases boxes_size(boxes_view(boxes_tree@)),
{
    let ghost bsv = boxes_view(boxes_tree@);
    let mut rest = boxes_tree;
    let mut boxes_out: Vec<LayoutBox> = Vec::new();
    proof {
        assert(boxes_view(boxes_out@) =~= Seq::<BoxV>::empty());
    }
    while rest.len() > 0
        invariant
            boxes_view(boxes_out@) + spec_flatten(boxes_view(rest@)) == spec_flatten(bsv),
            boxes_size(boxes_view(rest@)) <= boxes_size(bsv),
        decreases rest@.len(),
    {
        let ghost prev = rest@;
        let ghost pre = boxes_view(prev);
        let ghost outv = boxes_view(boxes_out@);
        let node = rest.remove(0);
        proof {
            lemma_boxes_view(prev);
            lemma_boxes_view(rest@);
            assert(rest@ =~= prev.subrange(1, prev.len() as int));
            assert forall|i: int| 0 <= i < rest@.len() implies boxes_view(rest@)[i]
                == pre.subrange(1, pre.len() as int)[i] by {
                assert(rest@[i] == prev[i + 1]);
                assert(pre[i + 1] == box_view(prev[i + 1]));
            }
            assert(boxes_view(rest@) =~= pre.subrange(1, pre.len() as int));
            assert(box_view(node) == pre[0]);
        }
        let copy = node.clone();
        let ghost out_before = boxes_out@;
        boxes_out.push(copy);
        proof {
            lemma_boxes_view_push(out_before, copy);
            assert(boxes_out@ == out_before.push(copy));
            assert(boxes_view(boxes_out@) =~= outv.push(pre[0]));
        }
        proof {
            assert(boxes_view(node.children@) == pre[0].children);
            assert(box_size(pre[0]) == 1 + boxes_size(pre[0].children));
            lemma_boxes_size_elem(pre, 0);
        }
        let mut sub = layout_box_tree_to_vector(node.children);
        let ghost outv2 = boxes_view(boxes_out@);
        let ghost out_before2 = boxes_out@;
        let ghost subv = sub@;
        boxes_out.append(&mut sub);
        proof {
            lemma_boxes_view_concat(out_before2, subv);
            assert(boxes_out@ == out_before2 + subv);
            assert(boxes_view(boxes_out@) =~= outv2 + boxes_view(subv));
            assert(spec_flatten(pre) == seq![pre[0]] + spec_flatten(pre[0].children)
                + spec_flatten(boxes_view(rest@)));
            assert(boxes_view(boxes_out@) + spec_flatten(boxes_view(rest@)) =~= outv
                + spec_flatten(pre));
            assert(outv + spec_flatten(pre) =~= spec_flatten(bsv) || outv + spec_flatten(pre)
                == spec_flatten(bsv));
            assert(boxes_size(pre) == box_size(pre[0]) + boxes_size(boxes_view(rest@)));
        }
    }
    proof {
        assert(boxes_view(rest@) =~= Seq::<BoxV>::empty());
        assert(spec_flatten(boxes_view(rest@)) =~= Seq::<BoxV>::empty());
        assert(boxes_view(boxes_out@) =~= boxes_view(boxes_out@) + Seq::<BoxV>::empty());
    }
    boxes_out
}

} // verus!
