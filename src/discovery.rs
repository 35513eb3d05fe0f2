//! Device discovery: the header gate, the hand-off to the device tree parser
//! and the walk of the tree it produces.

use vstd::prelude::*;
use vstd::slice::slice_subrange;

use crate::header::{header_magic, header_size, validate_and_size, DTB_MAGIC, HEADER_LEN};
use crate::tree::{preorder, visits_model, walk, DeviceNode, Visit};

verus! {

#[verifier::external_type_specification]
#[verifier::external_body]
pub struct ExDeviceTree(device_tree::DeviceTree);

#[verifier::external_type_specification]
#[verifier::external_body]
pub struct ExNode(device_tree::Node);

/// The root node of the tree that the device tree parser builds from the
/// blob `data`, when it accepts the blob.
pub uninterp spec fn parsed_root(data: Seq<u8>) -> Option<DeviceNode>;

/// Relies on `device_tree::Node`'s public fields and on `Node::prop_str`:
/// copies a parsed node's name, its `compatible` property read as a string,
/// and its children in order.
#[verifier::external_body]
fn node_model(n: &device_tree::Node) -> DeviceNode {
    DeviceNode {
        name: n.name.clone(),
        compatible: n.prop_str("compatible").ok().map(|c| c.to_owned()),
        children: n.children.iter().map(node_model).collect(),
    }
}

/// Relies on `device_tree::DeviceTree::load`: the parse depends on the bytes
/// alone, and it only succeeds on a blob that opens with the magic number and
/// whose header size field equals the length of `data`.
#[verifier::external_body]
fn load_tree(data: &[u8]) -> (r: Option<(device_tree::DeviceTree, DeviceNode)>)
    ensures
        r is Some <==> parsed_root(data@) is Some,
        r matches Some(t) ==> parsed_root(data@) == Some(t.1),
        r is Some ==> data@.len() >= HEADER_LEN && header_magic(data@) == DTB_MAGIC
            && header_size(data@) == data@.len(),
{
    let dt = device_tree::DeviceTree::load(data).ok()?;
    let root = node_model(&dt.root);
    Some((dt, root))
}

/// The outcome of device discovery.
#[derive(Debug)]
pub enum Discovery {
    /// The header's magic number is wrong: there is no device tree to read.
    NoDeviceTree,
    /// The header was right but the parser refused the blob.
    ParseFailed,
    /// The blob was parsed and walked: the parsed tree, and one visit per
    /// node in pre-order with the driver that probes it.
    Walked { tree: device_tree::DeviceTree, visits: Vec<Visit> },
}

/// The blob bytes that the header in `b` declares: its first
/// `header_size(b)` bytes.
pub open spec fn declared_blob(b: Seq<u8>) -> Seq<u8> {
    b.subrange(0, header_size(b))
}

/// Hands the whole of `data` to the parser and, when it accepts the blob,
/// walks the tree it built.
pub fn parse_and_walk(data: &[u8]) -> (r: Discovery)
    ensures
        r is ParseFailed <==> parsed_root(data@) is None,
        !(r is NoDeviceTree),
        r matches Discovery::Walked { visits, .. } ==> parsed_root(data@) matches Some(root)
            && visits_model(visits@) == preorder(root, Seq::empty()),
{
    match load_tree(data) {
        None => Discovery::ParseFailed,
        Some((tree, root)) => {
            let visits = walk(&root);
            Discovery::Walked { tree, visits }
        },
    }
}

/// Discovers the devices of the blob that starts `blob`: checks the header,
/// hands exactly the declared number of bytes to the parser, and walks the
/// tree. A wrong magic number ends discovery before any parse.
pub fn init(blob: &[u8]) -> (r: Discovery)
    requires
        blob@.len() >= HEADER_LEN,
        header_magic(blob@) == DTB_MAGIC ==> header_size(blob@) <= blob@.len(),
    ensures
        r is NoDeviceTree <==> header_magic(blob@) != DTB_MAGIC,
        header_magic(blob@) == DTB_MAGIC ==> (r is ParseFailed <==> parsed_root(
            declared_blob(blob@),
        ) is None),
        r matches Discovery::Walked { visits, .. } ==> parsed_root(declared_blob(blob@)) matches Some(
            root,
        ) && visits_model(visits@) == preorder(root, Seq::empty()),
{
    match validate_and_size(blob) {
        None => Discovery::NoDeviceTree,
        Some(size) => {
            let data = slice_subrange(blob, 0, size as usize);
            parse_and_walk(data)
        },
    }
}

} // verus!
