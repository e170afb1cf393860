//! The committed root that a read view stands on.

use crate::catalog::{
    clone_node_id, node_text, same_node, ExportHead, ExportLayoutKind, ExportRecord, NodeId,
    TreeFormat, WalSeq,
};
use crate::error::{ErrorView, Result, ServerError};
use crate::range::ByteRange;
use crate::text::{concat_three, owned};
use vstd::prelude::*;

verus! {

#[derive(Debug)]
enum RootBacking {
    Zero { root_node_id: Option<NodeId>, base_wal_seq: WalSeq, size_bytes: u64 },
    CowHead {
        root_node_id: Option<NodeId>,
        base_wal_seq: WalSeq,
        size_bytes: u64,
        tree_format: TreeFormat,
    },
}

/// Catalog head snapshot used as the committed read baseline.
#[derive(Debug)]
pub struct RootSnapshot {
    backing: RootBacking,
}

/// What a root says. A root without a format holds only zeros.
pub struct RootView {
    pub root_node_id: Option<Seq<char>>,
    pub base_wal_seq: int,
    pub size_bytes: int,
    pub tree_format: Option<TreeFormat>,
}

impl View for RootSnapshot {
    type V = RootView;

    closed spec fn view(&self) -> RootView {
        match self.backing {
            RootBacking::Zero { root_node_id, base_wal_seq, size_bytes } => RootView {
                root_node_id: node_text(root_node_id),
                base_wal_seq: base_wal_seq@,
                size_bytes: size_bytes as int,
                tree_format: None,
            },
            RootBacking::CowHead { root_node_id, base_wal_seq, size_bytes, tree_format } => {
                RootView {
                    root_node_id: node_text(root_node_id),
                    base_wal_seq: base_wal_seq@,
                    size_bytes: size_bytes as int,
                    tree_format: Some(tree_format),
                }
            },
        }
    }
}

/// The view of a head as a root that a tree backs.
pub open spec fn head_view(head: ExportHead) -> RootView {
    RootView {
        root_node_id: node_text(head.root_node_id),
        base_wal_seq: head.base_wal_seq@,
        size_bytes: head.size_bytes as int,
        tree_format: head.tree_format,
    }
}

/// Why a head cannot back a write-ahead-log export.
pub open spec fn head_error(head: ExportHead) -> Option<ErrorView> {
    if head.layout_kind != ExportLayoutKind::CowImmutableTree {
        Some(
            ErrorView::Catalog {
                message: "WAL root requires cow_immutable_tree head, got "@
                    + head.layout_kind.word() + ""@,
            },
        )
    } else if head.tree_format is None {
        Some(ErrorView::Catalog { message: "WAL root head is missing tree format"@ })
    } else {
        None
    }
}

impl Clone for RootSnapshot {
    fn clone(&self) -> (copy: Self)
        ensures
            copy@ == self@,
    {
        let backing = match &self.backing {
            RootBacking::Zero { root_node_id, base_wal_seq, size_bytes } => RootBacking::Zero {
                root_node_id: clone_node_id(root_node_id),
                base_wal_seq: *base_wal_seq,
                size_bytes: *size_bytes,
            },
            RootBacking::CowHead { root_node_id, base_wal_seq, size_bytes, tree_format } => {
                RootBacking::CowHead {
                    root_node_id: clone_node_id(root_node_id),
                    base_wal_seq: *base_wal_seq,
                    size_bytes: *size_bytes,
                    tree_format: *tree_format,
                }
            },
        };
        Self { backing }
    }
}

impl RootSnapshot {
    /// The numbers of every root fit their types.
    pub proof fn lemma_bounds(&self)
        ensures
            0 <= self@.base_wal_seq <= u64::MAX,
            0 <= self@.size_bytes <= u64::MAX,
    {
        match self.backing {
            RootBacking::Zero { base_wal_seq, .. } => {
                base_wal_seq.same_number(base_wal_seq);
            },
            RootBacking::CowHead { base_wal_seq, .. } => {
                base_wal_seq.same_number(base_wal_seq);
            },
        }
    }

    /// A root that holds only zeros.
    pub fn zero(root_node_id: Option<NodeId>, base_wal_seq: WalSeq, size_bytes: u64) -> (root: Self)
        ensures
            root@ == (RootView {
                root_node_id: node_text(root_node_id),
                base_wal_seq: base_wal_seq@,
                size_bytes: size_bytes as int,
                tree_format: None,
            }),
    {
        Self { backing: RootBacking::Zero { root_node_id, base_wal_seq, size_bytes } }
    }

    /// The root of an export that has no tree yet.
    pub fn from_meta(meta: &ExportRecord) -> (root: Self)
        ensures
            root@ == (RootView { tree_format: None, ..head_view(meta.head) }),
    {
        Self::zero(
            clone_node_id(&meta.head.root_node_id),
            meta.head.base_wal_seq,
            meta.head.size_bytes,
        )
    }

    /// The root that a head points at.
    pub fn from_head(head: &ExportHead) -> (result: Result<Self>)
        ensures
            match result {
                Ok(root) => head_error(*head) is None && root@ == head_view(*head),
                Err(error) => head_error(*head) == Some(error@),
            },
    {
        if head.layout_kind != ExportLayoutKind::CowImmutableTree {
            return Err(
                ServerError::catalog(
                    concat_three(
                        "WAL root requires cow_immutable_tree head, got ",
                        head.layout_kind.as_str(),
                        "",
                    ),
                ),
            );
        }
        match head.tree_format {
            Some(tree_format) => Ok(
                Self {
                    backing: RootBacking::CowHead {
                        root_node_id: clone_node_id(&head.root_node_id),
                        base_wal_seq: head.base_wal_seq,
                        size_bytes: head.size_bytes,
                        tree_format,
                    },
                },
            ),
            None => Err(ServerError::catalog(owned("WAL root head is missing tree format"))),
        }
    }

    pub fn root_node_id(&self) -> (id: &Option<NodeId>)
        ensures
            node_text(*id) == self@.root_node_id,
    {
        match &self.backing {
            RootBacking::Zero { root_node_id, .. } => root_node_id,
            RootBacking::CowHead { root_node_id, .. } => root_node_id,
        }
    }

    pub fn base_wal_seq(&self) -> (seq: WalSeq)
        ensures
            seq@ == self@.base_wal_seq,
    {
        match &self.backing {
            RootBacking::Zero { base_wal_seq, .. } => *base_wal_seq,
            RootBacking::CowHead { base_wal_seq, .. } => *base_wal_seq,
        }
    }

    pub fn size_bytes(&self) -> (size_bytes: u64)
        ensures
            size_bytes == self@.size_bytes,
    {
        match &self.backing {
            RootBacking::Zero { size_bytes, .. } => *size_bytes,
            RootBacking::CowHead { size_bytes, .. } => *size_bytes,
        }
    }

    /// Whether the root holds only zeros.
    pub fn is_zero_backed(&self) -> (zero: bool)
        ensures
            zero == (self@.tree_format is None),
    {
        match &self.backing {
            RootBacking::Zero { .. } => true,
            RootBacking::CowHead { .. } => false,
        }
    }

    pub fn tree_format(&self) -> (format: Option<TreeFormat>)
        ensures
            format == self@.tree_format,
    {
        match &self.backing {
            RootBacking::Zero { .. } => None,
            RootBacking::CowHead { tree_format, .. } => Some(*tree_format),
        }
    }

    /// The head that stands for the root in the catalog.
    pub fn to_export_head(&self) -> (head: ExportHead)
        ensures
            head.layout_kind == ExportLayoutKind::CowImmutableTree,
            head_view(head) == self@,
    {
        ExportHead {
            layout_kind: ExportLayoutKind::CowImmutableTree,
            root_node_id: clone_node_id(self.root_node_id()),
            size_bytes: self.size_bytes(),
            base_wal_seq: self.base_wal_seq(),
            tree_format: self.tree_format(),
        }
    }

    /// Whether both say the same.
    pub fn same(&self, other: &Self) -> (same: bool)
        ensures
            same == (self@ == other@),
    {
        if self.base_wal_seq().get() != other.base_wal_seq().get() || self.size_bytes()
            != other.size_bytes() || self.is_zero_backed() != other.is_zero_backed() {
            return false;
        }
        proof {
            match (self@.tree_format, other@.tree_format) {
                (Some(TreeFormat::Bounded32V1), Some(TreeFormat::Bounded32V1)) => {},
                _ => {},
            }
        }
        same_node(self.root_node_id(), other.root_node_id())
    }
}

/// A root that was made from a head gives the head back.
pub proof fn law_head_round_trip(head: ExportHead, root: RootSnapshot, again: ExportHead)
    requires
        head_error(head) is None,
        root@ == head_view(head),
        again.layout_kind == ExportLayoutKind::CowImmutableTree,
        head_view(again) == root@,
    ensures
        again.layout_kind == head.layout_kind,
        node_text(again.root_node_id) == node_text(head.root_node_id),
        again.size_bytes == head.size_bytes,
        again.base_wal_seq == head.base_wal_seq,
        again.tree_format == head.tree_format,
{
    again.base_wal_seq.same_number(head.base_wal_seq);
}

/// The error for a request outside an export.
pub open spec fn out_of_bounds(
    operation: Seq<char>,
    offset: int,
    length: int,
    size_bytes: int,
) -> ErrorView {
    ErrorView::OutOfBounds {
        operation,
        offset: offset as u64,
        length: length as u64,
        size_bytes: size_bytes as u64,
    }
}

/// Refuses a range that does not lie in an export.
pub fn validate_request_range(
    operation: &'static str,
    offset: u64,
    length: u64,
    size_bytes: u64,
) -> (result: Result<()>)
    ensures
        match result {
            Ok(_) => offset + length <= size_bytes,
            Err(error) => offset + length > size_bytes && error@ == out_of_bounds(
                operation@,
                offset as int,
                length as int,
                size_bytes as int,
            ),
        },
{
    match offset.checked_add(length) {
        Some(end) => if end > size_bytes {
            Err(ServerError::OutOfBounds { operation, offset, length, size_bytes })
        } else {
            Ok(())
        },
        None => Err(ServerError::OutOfBounds { operation, offset, length, size_bytes }),
    }
}

/// Refuses a range that does not lie in an export.
pub fn validate_range(operation: &'static str, range: ByteRange, size_bytes: u64) -> (result:
    Result<()>)
    ensures
        match result {
            Ok(_) => range.limit() <= size_bytes,
            Err(error) => range.limit() > size_bytes && error@ == out_of_bounds(
                operation@,
                range.first(),
                range.size(),
                size_bytes as int,
            ),
        },
{
    validate_request_range(operation, range.start(), range.len(), size_bytes)
}

/// A head is a root of the log exactly when it is that of a copy-on-write tree and says how its
/// tree is stored.
pub proof fn law_only_a_tree_head_is_a_root(head: ExportHead)
    ensures
        head_error(head) is None <==> head.layout_kind == ExportLayoutKind::CowImmutableTree
            && head.tree_format is Some,
        head_error(head) matches Some(error) ==> error is Catalog,
        head_view(head).size_bytes == head.size_bytes,
        head_view(head).base_wal_seq == head.base_wal_seq@,
        head_view(head).root_node_id is Some <==> head.root_node_id is Some,
{
}

/// What is said of a range that is out of bounds are its own numbers.
pub proof fn law_out_of_bounds_says_what_was_asked(
    operation: Seq<char>,
    offset: u64,
    length: u64,
    size_bytes: u64,
)
    ensures
        out_of_bounds(operation, offset as int, length as int, size_bytes as int) == (
        ErrorView::OutOfBounds { operation, offset, length, size_bytes }),
{
}

} // verus!
