//! What a traversal does at one node, decided from how the node's key stands
//! to the sought key and from the node's mark alone.

use vstd::prelude::*;

verus! {

/// How the key of the current node stands to the sought key.
#[derive(Clone, Copy, Debug, PartialEq, Eq, Structural)]
pub enum KeyOrder {
    Less,
    Equal,
    Greater,
}

/// Places a node's key relative to the sought key.
pub fn key_order(node_key: i32, key: i32) -> (order: KeyOrder)
    ensures
        order is Less <==> node_key < key,
        order is Equal <==> node_key == key,
        order is Greater <==> node_key > key,
{
    if node_key < key {
        KeyOrder::Less
    } else if node_key == key {
        KeyOrder::Equal
    } else {
        KeyOrder::Greater
    }
}

/// One step of the traversal that unlinks a whole run of marked nodes at
/// its end.
#[derive(Clone, Copy, Debug, PartialEq, Eq, Structural)]
pub enum HarrisStep {
    /// Move on to the successor. With `anchor`, the node just passed is live
    /// and becomes the predecessor from which a later unlink starts.
    Pass { anchor: bool },
    /// The traversal ends at this node.
    Stop { found: bool },
    /// The node at which the traversal would end is being deleted: give the
    /// attempt up.
    Restart,
}

/// The step at a node whose key stands as `order` and whose `next` field is
/// marked or not.
pub fn harris_step(order: KeyOrder, marked: bool) -> (step: HarrisStep)
    ensures
        order is Less ==> step == (HarrisStep::Pass { anchor: !marked }),
        !(order is Less) && !marked ==> step == (HarrisStep::Stop { found: order is Equal }),
        !(order is Less) && marked ==> step == HarrisStep::Restart,
{
    match order {
        KeyOrder::Less => HarrisStep::Pass { anchor: !marked },
        KeyOrder::Equal => if marked {
            HarrisStep::Restart
        } else {
            HarrisStep::Stop { found: true }
        },
        KeyOrder::Greater => if marked {
            HarrisStep::Restart
        } else {
            HarrisStep::Stop { found: false }
        },
    }
}

/// One step of the traversal that unlinks marked nodes one at a time.
#[derive(Clone, Copy, Debug, PartialEq, Eq, Structural)]
pub enum MichaelStep {
    /// The node is live and below the key: it becomes the predecessor.
    Advance,
    /// The node is live and at or above the key: the traversal ends here.
    Stop { found: bool },
    /// The node is marked: unlink it from the predecessor, then go on with
    /// its successor.
    Unlink,
}

/// The step at a node whose key stands as `order` and whose `next` field is
/// marked or not.
pub fn michael_step(order: KeyOrder, marked: bool) -> (step: MichaelStep)
    ensures
        marked ==> step == MichaelStep::Unlink,
        !marked && order is Less ==> step == MichaelStep::Advance,
        !marked && !(order is Less) ==> step == (MichaelStep::Stop { found: order is Equal }),
{
    if marked {
        MichaelStep::Unlink
    } else {
        match order {
            KeyOrder::Less => MichaelStep::Advance,
            KeyOrder::Equal => MichaelStep::Stop { found: true },
            KeyOrder::Greater => MichaelStep::Stop { found: false },
        }
    }
}

/// One step of the traversal that only reads.
#[derive(Clone, Copy, Debug, PartialEq, Eq, Structural)]
pub enum ReadStep {
    /// The node is below the key, marked or not: walk on.
    Advance,
    /// The first node at or above the key: the key is present exactly when
    /// this node has it and is live.
    Return { present: bool },
}

/// The step at a node whose key stands as `order` and whose `next` field is
/// marked or not.
pub fn read_step(order: KeyOrder, marked: bool) -> (step: ReadStep)
    ensures
        order is Less ==> step == ReadStep::Advance,
        !(order is Less) ==> step == (ReadStep::Return { present: order is Equal && !marked }),
{
    match order {
        KeyOrder::Less => ReadStep::Advance,
        KeyOrder::Equal => ReadStep::Return { present: !marked },
        KeyOrder::Greater => ReadStep::Return { present: false },
    }
}

} // verus!
