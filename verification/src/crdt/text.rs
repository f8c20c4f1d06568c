//! Text CRDT: a YATA-style collaborative character sequence.
//!
//! Characters are grouped into blocks. Every block remembers the identifier
//! it was born with, the neighbours it saw at birth (its left and right
//! origins), and whether it has been deleted; deletion only tombstones, so
//! causally dependent remote blocks can still find their place later.
//! Concurrent insertions at one spot are ordered deterministically by the
//! inserting replica's `(replica, counter)` identifier, which is what makes
//! all replicas converge on one text.
//!
//! Adjacent blocks written consecutively by one replica can be coalesced
//! into a single block on demand; coalescing never changes the characters,
//! their identities, or the rendered text.

use vstd::prelude::*;

verus! {

/// Identifier of one inserted block: the inserting replica and its counter
/// reading at the block's first character. Character `k` of the block owns
/// counter value `clock + k`, so every character has its own identity.
#[derive(Clone, Copy, Debug, PartialEq, Eq, Structural)]
pub struct ItemId {
    /// The inserting replica.
    pub client: u64,
    /// The replica's counter reading.
    pub clock: u64,
}

impl ItemId {
    /// Create an item id.
    pub fn new(client: u64, clock: u64) -> (r: ItemId)
        ensures
            r.client == client,
            r.clock == clock,
    {
        ItemId { client, clock }
    }
}

/// The order on item identifiers: replica first, then counter. This is the
/// tiebreak that makes concurrent same-origin insertions deterministic.
pub open spec fn id_lt(a: ItemId, b: ItemId) -> bool {
    a.client < b.client || (a.client == b.client && a.clock < b.clock)
}

/// The first index at or after `s` whose block carries `id`, if any.
pub open spec fn find_id_from(blocks: Seq<BlockView>, id: ItemId, s: int) -> Option<int>
    decreases blocks.len() - s,
{
    if s < 0 || s >= blocks.len() {
        None
    } else if blocks[s].id == id {
        Some(s)
    } else {
        find_id_from(blocks, id, s + 1)
    }
}

/// Where the YATA walk, started at `s` with a left origin behind it, places
/// a new block: it stops before its right origin, orders blocks sharing its
/// left origin by identifier, and stops before any block whose own left
/// origin sits after the new block's — a nested conflict it must precede.
pub open spec fn yata_scan(blocks: Seq<BlockView>, item: BlockView, s: int) -> int
    decreases blocks.len() - s,
{
    if s < 0 || s >= blocks.len() {
        blocks.len() as int
    } else if item.right == Some(blocks[s].id) {
        s
    } else if blocks[s].left == item.left {
        if id_lt(item.id, blocks[s].id) {
            s
        } else {
            yata_scan(blocks, item, s + 1)
        }
    } else if item.right is Some && (match (blocks[s].left, item.left) {
        (Some(cl), Some(lid)) => id_lt(lid, cl),
        _ => false,
    }) {
        s
    } else {
        yata_scan(blocks, item, s + 1)
    }
}

/// Where the YATA walk places a new block that has no left origin: it stops
/// before its right origin, orders against other left-origin-free blocks by
/// identifier, and stops before anything that has a left origin.
pub open spec fn yata_head_scan(blocks: Seq<BlockView>, item: BlockView, s: int) -> int
    decreases blocks.len() - s,
{
    if s < 0 || s >= blocks.len() {
        blocks.len() as int
    } else if item.right == Some(blocks[s].id) {
        s
    } else if blocks[s].left is None {
        if id_lt(item.id, blocks[s].id) {
            s
        } else {
            yata_head_scan(blocks, item, s + 1)
        }
    } else {
        s
    }
}

/// The index where a freshly arrived block is integrated: after its left
/// origin, ordered by the YATA walk; appended when the left origin is
/// unknown.
pub open spec fn integrate_pos(blocks: Seq<BlockView>, item: BlockView) -> int {
    match item.left {
        Some(lid) => match find_id_from(blocks, lid, 0) {
            Some(t) => yata_scan(blocks, item, t + 1),
            None => blocks.len() as int,
        },
        None => yata_head_scan(blocks, item, 0),
    }
}

/// Both YATA walks land between their start and the end of the list.
pub proof fn lemma_yata_scan_bounds(blocks: Seq<BlockView>, item: BlockView, s: int)
    requires
        0 <= s <= blocks.len(),
    ensures
        s <= yata_scan(blocks, item, s) <= blocks.len(),
        s <= yata_head_scan(blocks, item, s) <= blocks.len(),
    decreases blocks.len() - s,
{
    if s < blocks.len() {
        lemma_yata_scan_bounds(blocks, item, s + 1);
    }
}

/// The integration index is a position of the list.
pub proof fn lemma_integrate_pos_bounds(blocks: Seq<BlockView>, item: BlockView)
    ensures
        0 <= integrate_pos(blocks, item) <= blocks.len(),
{
    match item.left {
        Some(lid) => {
            match find_id_from(blocks, lid, 0) {
                Some(t) => {
                    lemma_find_id_from_bounds(blocks, lid, 0);
                    lemma_yata_scan_bounds(blocks, item, t + 1);
                },
                None => {},
            }
        },
        None => {
            lemma_yata_scan_bounds(blocks, item, 0);
        },
    }
}

/// A found index lies in range and carries the id.
pub proof fn lemma_find_id_from_bounds(blocks: Seq<BlockView>, id: ItemId, s: int)
    requires
        0 <= s,
    ensures
        match find_id_from(blocks, id, s) {
            Some(i) => s <= i < blocks.len() && blocks[i].id == id,
            None => forall|j: int| s <= j < blocks.len() ==> (#[trigger] blocks[j]).id != id,
        },
    decreases blocks.len() - s,
{
    if 0 <= s < blocks.len() {
        if blocks[s].id != id {
            lemma_find_id_from_bounds(blocks, id, s + 1);
        }
    }
}

/// The first block at or after `t` whose rendered text reaches `position`:
/// the left origin of an insertion at that position.
pub open spec fn anchor_scan(blocks: Seq<BlockView>, position: int, t: int) -> Option<int>
    decreases blocks.len() - t,
{
    if t < 0 || t >= blocks.len() {
        None
    } else if !blocks[t].deleted && render_blocks(blocks.take(t)).len() + blocks[t].content.len()
        >= position {
        Some(t)
    } else {
        anchor_scan(blocks, position, t + 1)
    }
}

/// The identifier of the first non-deleted block at or after `u`, if any.
pub open spec fn next_visible_from(blocks: Seq<BlockView>, u: int) -> Option<ItemId>
    decreases blocks.len() - u,
{
    if u < 0 || u >= blocks.len() {
        None
    } else if !blocks[u].deleted {
        Some(blocks[u].id)
    } else {
        next_visible_from(blocks, u + 1)
    }
}

/// The origins of an insertion at a visible position: at the head, no left
/// origin and the first block as right origin; inside, the block whose
/// rendered text reaches the position on the left and the next visible
/// block on the right; past the end, the last block on the left.
pub open spec fn origins_of(blocks: Seq<BlockView>, position: int) -> (
    Option<ItemId>,
    Option<ItemId>,
) {
    if position == 0 {
        (
            None,
            if blocks.len() > 0 {
                Some(blocks[0].id)
            } else {
                None
            },
        )
    } else {
        match anchor_scan(blocks, position, 0) {
            Some(t) => (Some(blocks[t].id), next_visible_from(blocks, t + 1)),
            None => (
                if blocks.len() > 0 {
                    Some(blocks[blocks.len() - 1].id)
                } else {
                    None
                },
                None,
            ),
        }
    }
}

/// One block of text: an identified run of characters with its birth
/// neighbours and its tombstone flag.
#[derive(Debug)]
pub struct Item {
    /// The block's identifier.
    pub id: ItemId,
    /// The characters of the block.
    pub content: String,
    /// The visible block just before this one when it was created.
    pub left: Option<ItemId>,
    /// The visible block just after this one when it was created.
    pub right: Option<ItemId>,
    /// Whether the block has been deleted. Deleted blocks stay in place as
    /// tombstones.
    pub deleted: bool,
}

/// Mathematical shape of an [`Item`].
pub struct BlockView {
    /// The block's identifier.
    pub id: ItemId,
    /// The characters of the block.
    pub content: Seq<char>,
    /// Left origin.
    pub left: Option<ItemId>,
    /// Right origin.
    pub right: Option<ItemId>,
    /// Tombstone flag.
    pub deleted: bool,
}

impl View for Item {
    type V = BlockView;

    open spec fn view(&self) -> BlockView {
        BlockView {
            id: self.id,
            content: self.content@,
            left: self.left,
            right: self.right,
            deleted: self.deleted,
        }
    }
}

impl Clone for Item {
    /// Cloning preserves the block.
    fn clone(&self) -> (res: Item)
        ensures
            res == *self,
    {
        Item {
            id: self.id,
            content: self.content.clone(),
            left: self.left,
            right: self.right,
            deleted: self.deleted,
        }
    }
}

/// One character with its identity: the cell view of a text. Blocks come
/// and go as they coalesce; cells are forever.
pub struct CellView {
    /// The replica that inserted the character.
    pub client: u64,
    /// The counter value the character owns.
    pub clock: int,
    /// The character itself.
    pub ch: char,
    /// Whether the character is deleted.
    pub deleted: bool,
}

/// Cell `k` of a block: character `k` owns counter `clock + k`.
pub open spec fn block_cell(b: BlockView, k: int) -> CellView {
    CellView { client: b.id.client, clock: b.id.clock + k, ch: b.content[k], deleted: b.deleted }
}

/// The cells of one block, in order.
pub open spec fn block_cells(b: BlockView) -> Seq<CellView> {
    Seq::new(b.content.len(), |k: int| block_cell(b, k))
}

/// The cells of a block list, in order.
pub open spec fn cells_of(blocks: Seq<BlockView>) -> Seq<CellView>
    decreases blocks.len(),
{
    if blocks.len() == 0 {
        Seq::empty()
    } else {
        cells_of(blocks.drop_last()) + block_cells(blocks.last())
    }
}

/// The rendered text of a block list: the contents of the blocks that are
/// not deleted, in order.
pub open spec fn render_blocks(blocks: Seq<BlockView>) -> Seq<char>
    decreases blocks.len(),
{
    if blocks.len() == 0 {
        Seq::empty()
    } else {
        render_blocks(blocks.drop_last()) + (if blocks.last().deleted {
            Seq::<char>::empty()
        } else {
            blocks.last().content
        })
    }
}

/// Cells and rendering both distribute over concatenation of block lists.
pub proof fn lemma_blocks_concat(a: Seq<BlockView>, b: Seq<BlockView>)
    ensures
        cells_of(a + b) == cells_of(a) + cells_of(b),
        render_blocks(a + b) == render_blocks(a) + render_blocks(b),
    decreases b.len(),
{
    if b.len() == 0 {
        assert(a + b =~= a);
        assert(cells_of(a) + cells_of(b) =~= cells_of(a));
        assert(render_blocks(a) + render_blocks(b) =~= render_blocks(a));
    } else {
        lemma_blocks_concat(a, b.drop_last());
        assert((a + b).drop_last() =~= a + b.drop_last());
        assert((a + b).last() == b.last());
        assert(cells_of(a + b) == cells_of(a + b.drop_last()) + block_cells(b.last()));
        assert(cells_of(a) + cells_of(b) =~= cells_of(a) + cells_of(b.drop_last())
            + block_cells(b.last()));
        assert(cells_of(a + b) =~= cells_of(a) + cells_of(b));
        assert(render_blocks(a) + render_blocks(b) =~= render_blocks(a) + render_blocks(
            b.drop_last(),
        ) + (if b.last().deleted {
            Seq::<char>::empty()
        } else {
            b.last().content
        }));
        assert(render_blocks(a + b) =~= render_blocks(a) + render_blocks(b));
    }
}

/// Whether some cell owns counter value `k` of replica `client`.
pub open spec fn has_cell(cells: Seq<CellView>, client: u64, k: int) -> bool {
    exists|i: int| 0 <= i < cells.len() && cells[i].client == client && cells[i].clock == k
}

/// The first cell owning counter value `k` of replica `client`.
pub open spec fn cell_find(cells: Seq<CellView>, client: u64, k: int) -> CellView
    decreases cells.len(),
{
    if cells.len() == 0 {
        CellView { client, clock: k, ch: ' ', deleted: false }
    } else if cells[0].client == client && cells[0].clock == k {
        cells[0]
    } else {
        cell_find(cells.skip(1), client, k)
    }
}

/// The first cell with a key decides the lookup.
pub proof fn lemma_cell_find_first(cells: Seq<CellView>, i: int, client: u64, k: int)
    requires
        0 <= i < cells.len(),
        cells[i].client == client,
        cells[i].clock == k,
        forall|j: int| 0 <= j < i ==> !(cells[j].client == client && cells[j].clock == k),
    ensures
        cell_find(cells, client, k) == cells[i],
    decreases i,
{
    if i > 0 {
        assert(forall|j: int|
            0 <= j < cells.skip(1).len() ==> cells.skip(1)[j] == cells[j + 1]);
        lemma_cell_find_first(cells.skip(1), i - 1, client, k);
    }
}

/// Lookup in a concatenation: the left side wins when it has the key.
pub proof fn lemma_cell_find_concat(a: Seq<CellView>, b: Seq<CellView>, client: u64, k: int)
    ensures
        has_cell(a + b, client, k) <==> has_cell(a, client, k) || has_cell(b, client, k),
        has_cell(a, client, k) ==> cell_find(a + b, client, k) == cell_find(a, client, k),
        !has_cell(a, client, k) ==> cell_find(a + b, client, k) == cell_find(b, client, k),
    decreases a.len(),
{
    if has_cell(a + b, client, k) {
        let i = choose|i: int|
            0 <= i < (a + b).len() && (a + b)[i].client == client && (a + b)[i].clock == k;
        if i < a.len() {
            assert(a[i].client == client && a[i].clock == k);
        } else {
            assert(b[i - a.len()].client == client && b[i - a.len()].clock == k);
        }
    }
    if has_cell(a, client, k) {
        let i = choose|i: int| 0 <= i < a.len() && a[i].client == client && a[i].clock == k;
        assert((a + b)[i] == a[i]);
    }
    if has_cell(b, client, k) {
        let i = choose|i: int| 0 <= i < b.len() && b[i].client == client && b[i].clock == k;
        assert((a + b)[a.len() + i] == b[i]);
    }
    if a.len() == 0 {
        assert(a + b =~= b);
    } else {
        assert((a + b)[0] == a[0]);
        assert((a + b).skip(1) =~= a.skip(1) + b);
        lemma_cell_find_concat(a.skip(1), b, client, k);
        assert(forall|j: int| 0 <= j < a.skip(1).len() ==> a.skip(1)[j] == a[j + 1]);
        if !(a[0].client == client && a[0].clock == k) {
            assert(has_cell(a, client, k) == has_cell(a.skip(1), client, k)) by {
                if has_cell(a, client, k) {
                    let i = choose|i: int|
                        0 <= i < a.len() && a[i].client == client && a[i].clock == k;
                    assert(a.skip(1)[i - 1].client == client && a.skip(1)[i - 1].clock == k);
                }
                if has_cell(a.skip(1), client, k) {
                    let i = choose|i: int|
                        0 <= i < a.skip(1).len() && a.skip(1)[i].client == client && a.skip(
                            1,
                        )[i].clock == k;
                    assert(a[i + 1].client == client && a[i + 1].clock == k);
                }
            }
        }
    }
}

/// The cells of one block are exactly its counter range, carrying its
/// characters and its tombstone flag.
pub proof fn lemma_block_cells_find(b: BlockView, client: u64, k: int)
    ensures
        has_cell(block_cells(b), client, k) <==> (client == b.id.client && b.id.clock <= k
            < b.id.clock + b.content.len()),
        has_cell(block_cells(b), client, k) ==> cell_find(block_cells(b), client, k)
            == (CellView {
            client: b.id.client,
            clock: k,
            ch: b.content[k - b.id.clock],
            deleted: b.deleted,
        }),
{
    let cs = block_cells(b);
    assert(cs.len() == b.content.len());
    assert forall|j: int| 0 <= j < cs.len() implies cs[j] == (CellView {
        client: b.id.client,
        clock: b.id.clock + j,
        ch: b.content[j],
        deleted: b.deleted,
    }) by {}
    if client == b.id.client && b.id.clock <= k < b.id.clock + b.content.len() {
        let i = k - b.id.clock;
        assert(cs[i].client == client && cs[i].clock == k);
        assert(forall|j: int| 0 <= j < i ==> !(cs[j].client == client && cs[j].clock == k));
        lemma_cell_find_first(cs, i, client, k);
    }
    if has_cell(cs, client, k) {
        let i = choose|i: int| 0 <= i < cs.len() && cs[i].client == client && cs[i].clock == k;
        assert(cs[i].client == b.id.client && cs[i].clock == b.id.clock + i);
    }
}

/// The blocks of an item list, observably.
pub open spec fn blocks_of(items: Seq<Item>) -> Seq<BlockView> {
    items.map_values(|it: Item| it@)
}

/// Structural health of a block list: every block is non-empty, its counter
/// range fits, and ranges of one replica never overlap — every character
/// identity exists at most once.
pub open spec fn blocks_wf(blocks: Seq<BlockView>) -> bool {
    (forall|i: int|
        0 <= i < blocks.len() ==> 1 <= (#[trigger] blocks[i]).content.len()
            && blocks[i].id.clock + blocks[i].content.len() <= u64::MAX) && (forall|i: int, j: int|
        0 <= i < blocks.len() && 0 <= j < blocks.len() && i != j && (#[trigger] blocks[i]).id.client
            == (#[trigger] blocks[j]).id.client ==> (blocks[i].id.clock + blocks[i].content.len()
            <= blocks[j].id.clock || blocks[j].id.clock + blocks[j].content.len()
            <= blocks[i].id.clock))
}

/// A text document owned by one replica: its blocks in sequence order, and a
/// counter for allocating fresh identities.
#[derive(Debug)]
pub struct Text {
    /// This replica's identifier.
    client_id: u64,
    /// Counter for allocating fresh item ids.
    clock: u64,
    /// All blocks, live and tombstoned, in sequence order.
    items: Vec<Item>,
}

impl Text {
    /// The blocks, observably.
    pub closed spec fn blocks(self) -> Seq<BlockView> {
        blocks_of(self.items@)
    }

    /// This replica's identifier.
    pub closed spec fn replica(self) -> u64 {
        self.client_id
    }

    /// The counter reading.
    pub closed spec fn counter(self) -> u64 {
        self.clock
    }

    /// The cells, observably: every character ever inserted, with its
    /// identity and tombstone flag, in sequence order.
    pub open spec fn cells(self) -> Seq<CellView> {
        cells_of(self.blocks())
    }

    /// The rendered text: the characters of the blocks not deleted.
    pub open spec fn render(self) -> Seq<char> {
        render_blocks(self.blocks())
    }

    /// Well-formed: healthy blocks, all of this replica's characters below
    /// the counter, and a total size that fits the machine.
    pub open spec fn wf(self) -> bool {
        &&& blocks_wf(self.blocks())
        &&& (forall|i: int|
            0 <= i < self.blocks().len() && (#[trigger] self.blocks()[i]).id.client
                == self.replica() ==> self.blocks()[i].id.clock + self.blocks()[i].content.len()
                <= self.counter())
        &&& self.cells().len() <= usize::MAX
    }

    /// Create a new, empty text document.
    pub fn new(client_id: u64) -> (r: Text)
        ensures
            r.wf(),
            r.replica() == client_id,
            r.counter() == 0,
            r.blocks() == Seq::<BlockView>::empty(),
            r.render() == Seq::<char>::empty(),
    {
        let r = Text { client_id, clock: 0, items: Vec::new() };
        proof {
            assert(r.blocks() =~= Seq::<BlockView>::empty());
        }
        r
    }

    /// This replica's identifier.
    pub fn client_id(&self) -> (r: u64)
        ensures
            r == self.replica(),
    {
        self.client_id
    }

    /// The current counter value.
    pub fn clock(&self) -> (r: u64)
        ensures
            r == self.counter(),
    {
        self.clock
    }

    /// The length of the rendered text: deleted characters do not count.
    pub fn len(&self) -> (r: usize)
        requires
            self.wf(),
        ensures
            r == self.render().len(),
    {
        let mut total: usize = 0;
        let mut t: usize = 0;
        while t < self.items.len()
            invariant
                self.wf(),
                t <= self.items@.len(),
                total == render_blocks(self.blocks().take(t as int)).len(),
                total <= self.cells().len(),
            decreases self.items@.len() - t,
        {
            proof {
                lemma_render_le_cells(self.blocks(), t + 1);
                assert(self.blocks().take(t + 1).drop_last() =~= self.blocks().take(t as int));
                assert(self.blocks().take(t + 1).last() == self.blocks()[t as int]);
            }
            if !self.items[t].deleted {
                let piece = self.items[t].content.as_str().unicode_len();
                total = total + piece;
            }
            t = t + 1;
        }
        proof {
            assert(self.blocks().take(self.blocks().len() as int) =~= self.blocks());
        }
        total
    }

    /// Whether the rendered text is empty.
    pub fn is_empty(&self) -> (r: bool)
        requires
            self.wf(),
        ensures
            r <==> self.render().len() == 0,
    {
        self.len() == 0
    }

    /// The rendered text.
    pub fn to_string(&self) -> (r: String)
        requires
            self.wf(),
        ensures
            r@ == self.render(),
    {
        let mut out = String::new();
        let mut t: usize = 0;
        while t < self.items.len()
            invariant
                t <= self.items@.len(),
                out@ == render_blocks(self.blocks().take(t as int)),
            decreases self.items@.len() - t,
        {
            proof {
                assert(self.blocks().take(t + 1).drop_last() =~= self.blocks().take(t as int));
                assert(self.blocks().take(t + 1).last() == self.blocks()[t as int]);
            }
            if !self.items[t].deleted {
                out.append(self.items[t].content.as_str());
            }
            t = t + 1;
        }
        proof {
            assert(self.blocks().take(self.blocks().len() as int) =~= self.blocks());
        }
        out
    }

    /// Index of the block with identifier `id`, if present.
    fn index_of_id(&self, id: ItemId) -> (r: Option<usize>)
        ensures
            match r {
                Some(i) => find_id_from(self.blocks(), id, 0) == Some(i as int) && i
                    < self.blocks().len() && self.blocks()[i as int].id == id,
                None => find_id_from(self.blocks(), id, 0) is None,
            },
    {
        let mut i: usize = 0;
        while i < self.items.len()
            invariant
                i <= self.items@.len(),
                find_id_from(self.blocks(), id, 0) == find_id_from(self.blocks(), id, i as int),
            decreases self.items@.len() - i,
        {
            proof {
                assert(self.blocks()[i as int] == self.items@[i as int]@);
            }
            if self.items[i].id == id {
                return Some(i);
            }
            i = i + 1;
        }
        proof {
            assert(self.blocks().len() == self.items@.len());
        }
        None
    }

    /// The left and right origins for an insertion at `position`: the block
    /// whose rendered text reaches the position as left origin, the next
    /// visible block after it as right origin. At position zero the left
    /// origin is empty and the first block — visible or not — is the right
    /// origin; past the end the last block is the left origin.
    fn find_origins(&self, position: usize) -> (r: (Option<ItemId>, Option<ItemId>))
        requires
            self.wf(),
        ensures
            r == origins_of(self.blocks(), position as int),
    {
        if position == 0 {
            if self.items.len() > 0 {
                proof {
                    assert(self.blocks()[0] == self.items@[0]@);
                }
                return (None, Some(self.items[0].id));
            }
            proof {
                assert(self.blocks().len() == 0);
            }
            return (None, None);
        }
        let mut visible_pos: usize = 0;
        let mut t: usize = 0;
        while t < self.items.len()
            invariant
                self.wf(),
                0 < position,
                t <= self.items@.len(),
                visible_pos == render_blocks(self.blocks().take(t as int)).len(),
                visible_pos < position,
                anchor_scan(self.blocks(), position as int, 0) == anchor_scan(
                    self.blocks(),
                    position as int,
                    t as int,
                ),
            decreases self.items@.len() - t,
        {
            proof {
                assert(self.blocks()[t as int] == self.items@[t as int]@);
                assert(self.blocks().take(t + 1).drop_last() =~= self.blocks().take(t as int));
                assert(self.blocks().take(t + 1).last() == self.blocks()[t as int]);
                lemma_render_le_cells(self.blocks(), t + 1);
            }
            if !self.items[t].deleted {
                let piece = self.items[t].content.as_str().unicode_len();
                if visible_pos + piece >= position {
                    // This block is the left origin; the right origin is the
                    // next visible block after it.
                    let left = Some(self.items[t].id);
                    proof {
                        assert(anchor_scan(self.blocks(), position as int, t as int) == Some(
                            t as int,
                        ));
                    }
                    let mut u: usize = t + 1;
                    while u < self.items.len()
                        invariant
                            0 < position,
                            t < u,
                            u <= self.items@.len(),
                            t < self.items@.len(),
                            left == Some(self.items@[t as int].id),
                            anchor_scan(self.blocks(), position as int, 0) == Some(t as int),
                            next_visible_from(self.blocks(), t + 1) == next_visible_from(
                                self.blocks(),
                                u as int,
                            ),
                        decreases self.items@.len() - u,
                    {
                        proof {
                            assert(self.blocks()[u as int] == self.items@[u as int]@);
                        }
                        if !self.items[u].deleted {
                            proof {
                                assert(self.blocks()[t as int] == self.items@[t as int]@);
                            }
                            return (left, Some(self.items[u].id));
                        }
                        u = u + 1;
                    }
                    proof {
                        assert(self.blocks()[t as int] == self.items@[t as int]@);
                        assert(self.blocks().len() == self.items@.len());
                    }
                    return (left, None);
                }
                visible_pos = visible_pos + piece;
            }
            t = t + 1;
        }
        // Past the end: insert after the last block, visible or not.
        proof {
            assert(self.blocks().len() == self.items@.len());
        }
        if self.items.len() > 0 {
            let last = self.items.len() - 1;
            proof {
                assert(self.blocks()[last as int] == self.items@[last as int]@);
            }
            return (Some(self.items[last].id), None);
        }
        (None, None)
    }

    /// YATA integration: the freshly arrived block lands exactly where the
    /// placement walk puts it — after its left origin, before its right
    /// origin, ordered against concurrent same-origin arrivals by
    /// identifier.
    fn integrate_item(&mut self, item: Item)
        ensures
            final(self).replica() == old(self).replica(),
            final(self).counter() == old(self).counter(),
            final(self).blocks() == old(self).blocks().insert(
                integrate_pos(old(self).blocks(), item@),
                item@,
            ),
    {
        proof {
            lemma_integrate_pos_bounds(self.blocks(), item@);
        }
        let ghost target = integrate_pos(self.blocks(), item@);
        let mut pos: usize;
        match item.left {
            Some(left_id) => {
                match self.index_of_id(left_id) {
                    Some(left_pos) => {
                        proof {
                            assert(self.blocks().len() == self.items@.len());
                        }
                        let block_count = self.items.len();
                        assert(left_pos < block_count);
                        pos = left_pos + 1;
                        let ghost start = pos as int;
                        proof {
                            assert(target == yata_scan(self.blocks(), item@, start));
                        }
                        let mut settled = false;
                        while !settled && pos < self.items.len()
                            invariant
                                item.left == Some(left_id),
                                pos <= self.items@.len(),
                                !settled ==> target == yata_scan(
                                    self.blocks(),
                                    item@,
                                    pos as int,
                                ),
                                settled ==> target == pos as int,
                            decreases self.items@.len() - pos, (if settled {
                                0int
                            } else {
                                1int
                            }),
                        {
                            proof {
                                assert(self.blocks()[pos as int] == self.items@[pos as int]@);
                            }
                            let at_right = match item.right {
                                Some(right_id) => self.items[pos].id == right_id,
                                None => false,
                            };
                            if at_right {
                                settled = true;
                            } else {
                                let same_left = match self.items[pos].left {
                                    Some(cl) => cl == left_id,
                                    None => false,
                                };
                                proof {
                                    assert(same_left == (self.blocks()[pos as int].left
                                        == item@.left));
                                }
                                if same_left {
                                    if id_less(item.id, self.items[pos].id) {
                                        settled = true;
                                    } else {
                                        pos = pos + 1;
                                    }
                                } else {
                                    let mut stop = false;
                                    if item.right.is_some() {
                                        if let Some(cl) = self.items[pos].left {
                                            if id_less(left_id, cl) {
                                                stop = true;
                                            }
                                        }
                                    }
                                    if stop {
                                        settled = true;
                                    } else {
                                        pos = pos + 1;
                                    }
                                }
                            }
                        }
                        proof {
                            if !settled {
                                assert(pos as int == self.items@.len());
                                assert(self.blocks().len() == self.items@.len());
                            }
                            assert(target == pos as int);
                        }
                    },
                    None => {
                        // The left origin is unknown here; append.
                        pos = self.items.len();
                        proof {
                            assert(self.blocks().len() == self.items@.len());
                        }
                    },
                }
            },
            None => {
                // No left origin: scan the sequence head, ordering against
                // other head insertions by identifier.
                pos = 0;
                let mut settled = false;
                while !settled && pos < self.items.len()
                    invariant
                        item.left is None,
                        pos <= self.items@.len(),
                        !settled ==> target == yata_head_scan(self.blocks(), item@, pos as int),
                        settled ==> target == pos as int,
                    decreases self.items@.len() - pos, (if settled {
                        0int
                    } else {
                        1int
                    }),
                {
                    proof {
                        assert(self.blocks()[pos as int] == self.items@[pos as int]@);
                    }
                    let at_right = match item.right {
                        Some(right_id) => self.items[pos].id == right_id,
                        None => false,
                    };
                    if at_right {
                        settled = true;
                    } else {
                        match self.items[pos].left {
                            None => {
                                if id_less(item.id, self.items[pos].id) {
                                    settled = true;
                                } else {
                                    pos = pos + 1;
                                }
                            },
                            Some(_) => {
                                settled = true;
                            },
                        }
                    }
                }
                proof {
                    if !settled {
                        assert(pos as int == self.items@.len());
                        assert(self.blocks().len() == self.items@.len());
                    }
                    assert(target == pos as int);
                }
            },
        }
        let ghost old_items = self.items@;
        let ghost k = pos as int;
        proof {
            assert(k == target);
        }
        self.items.insert(pos, item);
        proof {
            assert(self.items@[k] == item);
            assert(blocks_of(old_items).len() == old_items.len());
            assert(0 <= k <= blocks_of(old_items).len());
            assert(self.blocks() =~= blocks_of(old_items).insert(k, self.items@[k]@)) by {
                assert(self.items@ == old_items.insert(k, self.items@[k]));
                assert forall|j: int| 0 <= j < self.items@.len() implies self.blocks()[j]
                    == blocks_of(old_items).insert(k, self.items@[k]@)[j] by {
                    assert(self.blocks()[j] == self.items@[j]@);
                    if j < k {
                        assert(self.items@[j] == old_items[j]);
                        assert(blocks_of(old_items)[j] == old_items[j]@);
                    } else if j > k {
                        assert(self.items@[j] == old_items[j - 1]);
                        assert(blocks_of(old_items)[j - 1] == old_items[j - 1]@);
                    }
                }
            }
            assert(blocks_of(old_items) == old(self).blocks());
            assert(self.blocks() == old(self).blocks().insert(k, item@));
        }
    }

    /// Insert `text` at the given visible position. Every character becomes
    /// a fresh cell of this replica — old cells are untouched, the new ones
    /// carry the inserted characters in counter order — and the rendered
    /// text grows by the inserted length. Positions beyond the end append.
    /// Returns the identifiers of the created items, in order.
    #[verifier::rlimit(100)]
    pub fn insert(&mut self, position: usize, text: &str) -> (r: Vec<ItemId>)
        requires
            old(self).wf(),
            old(self).counter() + text@.len() <= u64::MAX,
            cells_of(old(self).blocks()).len() + text@.len() <= usize::MAX,
        ensures
            final(self).wf(),
            final(self).replica() == old(self).replica(),
            final(self).counter() == old(self).counter() + text@.len(),
            r@.len() == text@.len(),
            forall|k: int|
                0 <= k < r@.len() ==> r@[k] == (ItemId {
                    client: old(self).replica(),
                    clock: (old(self).counter() + k) as u64,
                }),
            final(self).render().len() == old(self).render().len() + text@.len(),
            insert_effect(*old(self), *final(self), text@, text@.len() as int),
            final(self).blocks() == insert_fold(
                old(self).blocks(),
                old(self).replica(),
                old(self).counter(),
                text@,
                text@.len() as int,
                origins_of(old(self).blocks(), position as int).0,
                origins_of(old(self).blocks(), position as int).1,
            ),
    {
        let ghost prior = *self;
        let (left_origin, right_origin) = self.find_origins(position);
        proof {
            assert(left_origin == origins_of(prior.blocks(), position as int).0);
            assert(right_origin == origins_of(prior.blocks(), position as int).1);
        }
        let mut created: Vec<ItemId> = Vec::new();
        let n = text.unicode_len();
        let mut j: usize = 0;
        while j < n
            invariant
                prior.wf(),
                n == text@.len(),
                j <= n,
                prior.counter() + n <= u64::MAX,
                cells_of(prior.blocks()).len() + n <= usize::MAX,
                self.wf(),
                self.replica() == prior.replica(),
                self.counter() == prior.counter() + j,
                created@.len() == j,
                forall|k: int|
                    0 <= k < j ==> created@[k] == (ItemId {
                        client: prior.replica(),
                        clock: (prior.counter() + k) as u64,
                    }),
                self.render().len() == prior.render().len() + j,
                cells_of(self.blocks()).len() == cells_of(prior.blocks()).len() + j,
                insert_effect(prior, *self, text@, j as int),
                left_origin == origins_of(prior.blocks(), position as int).0,
                right_origin == origins_of(prior.blocks(), position as int).1,
                self.blocks() == insert_fold(
                    prior.blocks(),
                    prior.replica(),
                    prior.counter(),
                    text@,
                    j as int,
                    left_origin,
                    right_origin,
                ),
            decreases n - j,
        {
            let ch = text.get_char(j);
            let id = ItemId { client: self.client_id, clock: self.clock };
            self.clock = self.clock + 1;
            let mut content = String::new();
            crate::crdt::fractional_index::push_char(&mut content, ch);
            let item = Item {
                id,
                content,
                left: left_origin,
                right: right_origin,
                deleted: false,
            };
            let ghost before = *self;
            let ghost b = item@;
            proof {
                assert(b.content =~= seq![ch]);
                assert(b.content.len() == 1);
            }
            self.integrate_item(item);
            proof {
                let k = integrate_pos(before.blocks(), b);
                lemma_integrate_pos_bounds(before.blocks(), b);
                assert(self.blocks() == before.blocks().insert(k, b));
                let pre = before.blocks();
                let cur_clock = prior.counter() + j;
                assert(b.id.client == prior.replica() && b.id.clock == cur_clock);
                assert(pre =~= pre.take(k) + pre.skip(k));
                lemma_blocks_concat(pre.take(k), pre.skip(k));
                assert(self.blocks() =~= pre.take(k) + (seq![b] + pre.skip(k)));
                lemma_blocks_concat(pre.take(k), seq![b] + pre.skip(k));
                lemma_blocks_concat(seq![b], pre.skip(k));
                assert(cells_of(seq![b]) =~= block_cells(b)) by {
                    assert(seq![b].drop_last() =~= Seq::<BlockView>::empty());
                    assert(cells_of(Seq::<BlockView>::empty()) =~= Seq::<CellView>::empty());
                }
                assert(render_blocks(seq![b]) =~= b.content) by {
                    assert(seq![b].drop_last() =~= Seq::<BlockView>::empty());
                    assert(render_blocks(Seq::<BlockView>::empty()) =~= Seq::<char>::empty());
                }
                assert(cells_of(self.blocks()) =~= cells_of(pre.take(k)) + (block_cells(b)
                    + cells_of(pre.skip(k))));
                assert(cells_of(before.blocks()) =~= cells_of(pre.take(k)) + cells_of(
                    pre.skip(k),
                ));
                assert(render_blocks(self.blocks()) =~= render_blocks(pre.take(k)) + (b.content
                    + render_blocks(pre.skip(k))));
                assert(render_blocks(before.blocks()) =~= render_blocks(pre.take(k))
                    + render_blocks(pre.skip(k)));
                // The fresh identity is unseen: this replica's cells stay
                // below its counter.
                assert(!has_cell(prior.cells(), prior.replica(), cur_clock)) by {
                    lemma_cell_cover(prior.blocks(), prior.replica(), cur_clock);
                    if has_cell(prior.cells(), prior.replica(), cur_clock) {
                        let bi = choose|bi: int|
                            0 <= bi < prior.blocks().len() && covers(
                                #[trigger] prior.blocks()[bi],
                                prior.replica(),
                                cur_clock,
                            );
                    }
                }
                assert(insert_effect(prior, before, text@, j as int));
                assert(!has_cell(cells_of(before.blocks()), prior.replica(), cur_clock));
                assert(!has_cell(cells_of(pre.take(k)), prior.replica(), cur_clock)
                    && !has_cell(cells_of(pre.skip(k)), prior.replica(), cur_clock)) by {
                    lemma_cell_find_concat(
                        cells_of(pre.take(k)),
                        cells_of(pre.skip(k)),
                        prior.replica(),
                        cur_clock,
                    );
                }
                assert forall|c: u64, kk: int| #[trigger] has_cell(self.cells(), c, kk) <==> (
                has_cell(prior.cells(), c, kk) || (c == prior.replica() && prior.counter() <= kk
                    < prior.counter() + (j + 1))) by {
                    lemma_cell_find_concat(
                        cells_of(pre.take(k)),
                        block_cells(b) + cells_of(pre.skip(k)),
                        c,
                        kk,
                    );
                    lemma_cell_find_concat(block_cells(b), cells_of(pre.skip(k)), c, kk);
                    lemma_cell_find_concat(cells_of(pre.take(k)), cells_of(pre.skip(k)), c, kk);
                    lemma_block_cells_find(b, c, kk);
                    assert(has_cell(before.cells(), c, kk) <==> (has_cell(prior.cells(), c, kk)
                        || (c == prior.replica() && prior.counter() <= kk < prior.counter()
                        + j)));
                }
                assert forall|c: u64, kk: int| has_cell(prior.cells(), c, kk) implies #[trigger]
                cell_find(self.cells(), c, kk) == cell_find(prior.cells(), c, kk) by {
                    lemma_cell_find_concat(
                        cells_of(pre.take(k)),
                        block_cells(b) + cells_of(pre.skip(k)),
                        c,
                        kk,
                    );
                    lemma_cell_find_concat(block_cells(b), cells_of(pre.skip(k)), c, kk);
                    lemma_cell_find_concat(cells_of(pre.take(k)), cells_of(pre.skip(k)), c, kk);
                    lemma_block_cells_find(b, c, kk);
                    assert(has_cell(before.cells(), c, kk));
                    assert(cell_find(before.cells(), c, kk) == cell_find(prior.cells(), c, kk));
                    // The fresh block cannot carry an already-seen identity.
                    assert(!(c == prior.replica() && kk == cur_clock));
                }
                assert forall|k2: int| 0 <= k2 < j + 1 implies #[trigger] cell_find(
                    self.cells(),
                    prior.replica(),
                    prior.counter() + k2,
                ) == (CellView {
                    client: prior.replica(),
                    clock: prior.counter() + k2,
                    ch: text@[k2],
                    deleted: false,
                }) by {
                    let c = prior.replica();
                    let kk = prior.counter() + k2;
                    lemma_cell_find_concat(
                        cells_of(pre.take(k)),
                        block_cells(b) + cells_of(pre.skip(k)),
                        c,
                        kk,
                    );
                    lemma_cell_find_concat(block_cells(b), cells_of(pre.skip(k)), c, kk);
                    lemma_cell_find_concat(cells_of(pre.take(k)), cells_of(pre.skip(k)), c, kk);
                    lemma_block_cells_find(b, c, kk);
                    if k2 < j {
                        assert(cell_find(before.cells(), c, kk) == (CellView {
                            client: c,
                            clock: kk,
                            ch: text@[k2],
                            deleted: false,
                        }));
                        assert(has_cell(before.cells(), c, kk));
                    } else {
                        assert(kk == cur_clock);
                        assert(covers(b, c, kk));
                        assert(block_cell(b, 0) == (CellView {
                            client: c,
                            clock: kk,
                            ch: text@[k2],
                            deleted: false,
                        }));
                    }
                }
                // Structural health with the fresh single-character block.
                assert(blocks_wf(self.blocks())) by {
                    assert forall|x: int, y: int|
                        0 <= x < self.blocks().len() && 0 <= y < self.blocks().len() && x != y && (
                        #[trigger] self.blocks()[x]).id.client == (#[trigger] self.blocks()[y]).id.client
                        implies (self.blocks()[x].id.clock + self.blocks()[x].content.len()
                        <= self.blocks()[y].id.clock || self.blocks()[y].id.clock
                        + self.blocks()[y].content.len() <= self.blocks()[x].id.clock) by {
                        let px: int = if x < k {
                            x
                        } else {
                            x - 1
                        };
                        let py: int = if y < k {
                            y
                        } else {
                            y - 1
                        };
                        if x != k && y != k {
                            assert(self.blocks()[x] == pre[px] && self.blocks()[y] == pre[py]);
                        } else if x == k {
                            assert(self.blocks()[y] == pre[py]);
                        } else {
                            assert(self.blocks()[x] == pre[px]);
                        }
                    }
                }
            }
            created.push(id);
            j = j + 1;
        }
        created
    }

    /// Delete `length` visible characters starting at `position`. Blocks are
    /// only tombstoned, never dropped: a visible block is marked deleted
    /// exactly when its rendered range meets the window — whole blocks go,
    /// even when only part of them is covered. Returns the identifiers of
    /// the newly tombstoned blocks, in order.
    #[verifier::rlimit(100)]
    pub fn delete(&mut self, position: usize, length: usize) -> (r: Vec<ItemId>)
        requires
            old(self).wf(),
            position + length <= usize::MAX,
        ensures
            final(self).wf(),
            final(self).replica() == old(self).replica(),
            final(self).counter() == old(self).counter(),
            final(self).blocks().len() == old(self).blocks().len(),
            forall|k: int|
                0 <= k < final(self).blocks().len() ==> {
                    let nb = #[trigger] final(self).blocks()[k];
                    let ob = old(self).blocks()[k];
                    nb.id == ob.id && nb.content == ob.content && nb.left == ob.left && nb.right
                        == ob.right && (nb.deleted == (ob.deleted || (!ob.deleted
                        && render_blocks(old(self).blocks().take(k)).len() < position + length
                        && render_blocks(old(self).blocks().take(k)).len() + ob.content.len()
                        > position)))
                },
            r@ == tombstoned_ids(
                old(self).blocks(),
                position as int,
                length as int,
                old(self).blocks().len() as int,
            ),
    {
        let ghost prior = *self;
        let mut deleted_ids: Vec<ItemId> = Vec::new();
        let mut visible_pos: usize = 0;
        let mut t: usize = 0;
        while t < self.items.len()
            invariant
                prior.wf(),
                position + length <= usize::MAX,
                t <= self.items@.len(),
                self.replica() == prior.replica(),
                self.counter() == prior.counter(),
                self.blocks().len() == prior.blocks().len(),
                visible_pos == render_blocks(prior.blocks().take(t as int)).len(),
                visible_pos <= cells_of(prior.blocks()).len(),
                cells_of(self.blocks()).len() == cells_of(prior.blocks()).len(),
                forall|k: int|
                    t <= k < self.blocks().len() ==> #[trigger] self.blocks()[k]
                        == prior.blocks()[k],
                forall|k: int|
                    0 <= k < t ==> {
                        let nb = #[trigger] self.blocks()[k];
                        let ob = prior.blocks()[k];
                        nb.id == ob.id && nb.content == ob.content && nb.left == ob.left
                            && nb.right == ob.right && (nb.deleted == (ob.deleted || (!ob.deleted
                            && render_blocks(prior.blocks().take(k)).len() < position + length
                            && render_blocks(prior.blocks().take(k)).len() + ob.content.len()
                            > position)))
                    },
                deleted_ids@ == tombstoned_ids(
                    prior.blocks(),
                    position as int,
                    length as int,
                    t as int,
                ),
                self.wf(),
            decreases self.items@.len() - t,
        {
            let ghost pb = self.blocks();
            proof {
                assert(self.blocks()[t as int] == self.items@[t as int]@);
                assert(prior.blocks().take(t + 1).drop_last() =~= prior.blocks().take(t as int));
                assert(prior.blocks().take(t + 1).last() == prior.blocks()[t as int]);
                lemma_render_le_cells(prior.blocks(), t + 1);
            }
            if !self.items[t].deleted {
                let piece = self.items[t].content.as_str().unicode_len();
                let covered = visible_pos < position + length && visible_pos + piece > position;
                if covered {
                    let item = self.items.remove(t);
                    let tombstoned = Item {
                        id: item.id,
                        content: item.content,
                        left: item.left,
                        right: item.right,
                        deleted: true,
                    };
                    self.items.insert(t, tombstoned);
                    proof {
                        assert(self.blocks().len() == pb.len());
                        assert(forall|k: int|
                            0 <= k < self.blocks().len() && k != t ==> #[trigger] self.blocks()[k]
                                == pb[k]);
                        assert(self.blocks()[t as int].id == pb[t as int].id);
                        assert(self.blocks()[t as int].content == pb[t as int].content);
                        assert(self.blocks()[t as int].deleted);
                        lemma_cells_len_same(pb, self.blocks());
                        assert(deleted_ids@.push(pb[t as int].id) == tombstoned_ids(
                            prior.blocks(),
                            position as int,
                            length as int,
                            t + 1,
                        ));
                    }
                    deleted_ids.push(item.id);
                } else {
                    proof {
                        assert(deleted_ids@ == tombstoned_ids(
                            prior.blocks(),
                            position as int,
                            length as int,
                            t + 1,
                        ));
                    }
                }
                visible_pos = visible_pos + piece;
            } else {
                proof {
                    assert(deleted_ids@ == tombstoned_ids(
                        prior.blocks(),
                        position as int,
                        length as int,
                        t + 1,
                    ));
                }
            }
            t = t + 1;
        }
        proof {
            assert(prior.blocks().take(prior.blocks().len() as int) =~= prior.blocks());
        }
        deleted_ids
    }

    /// The largest counter any of the other replica's blocks claims for
    /// `client`: one past its last character.
    fn peak_of_client(other: &Text, client: u64) -> (r: u64)
        requires
            other.wf(),
        ensures
            r as int == own_peak(other.blocks(), client),
    {
        let mut peak: u64 = 0;
        let mut t: usize = 0;
        while t < other.items.len()
            invariant
                other.wf(),
                t <= other.items@.len(),
                peak as int == own_peak(other.blocks().take(t as int), client),
            decreases other.items@.len() - t,
        {
            proof {
                assert(other.blocks()[t as int] == other.items@[t as int]@);
                assert(other.blocks().take(t + 1).drop_last() =~= other.blocks().take(t as int));
                assert(other.blocks().take(t + 1).last() == other.blocks()[t as int]);
                lemma_own_peak_bounds(other.blocks().take(t as int), client);
            }
            if other.items[t].id.client == client {
                let piece = other.items[t].content.as_str().unicode_len();
                proof {
                    assert(other.blocks()[t as int].id.clock
                        + other.blocks()[t as int].content.len() <= u64::MAX);
                }
                let end = other.items[t].id.clock + (piece as u64);
                if end > peak {
                    peak = end;
                }
            }
            t = t + 1;
        }
        proof {
            assert(other.blocks().take(other.blocks().len() as int) =~= other.blocks());
        }
        peak
    }

    /// Merge another replica's text into this one. Every character either
    /// side has ever inserted is present afterwards, keeping the character
    /// it carries wherever it is known, and deleted exactly when either
    /// side had deleted it; the counter advances past both replicas'
    /// readings so future identities stay fresh. Blocks this replica has
    /// not seen find their place by YATA integration.
    #[verifier::rlimit(100)]
    pub fn merge(&mut self, other: &Text)
        requires
            old(self).wf(),
            other.wf(),
            compatible(old(self).blocks(), other.blocks()),
            cells_of(old(self).blocks()).len() + cells_of(other.blocks()).len() <= usize::MAX,
        ensures
            final(self).wf(),
            final(self).replica() == old(self).replica(),
            final(self).counter() as int == ({
                let base: int = if old(self).counter() as int >= own_peak(
                    other.blocks(),
                    old(self).replica(),
                ) {
                    old(self).counter() as int
                } else {
                    own_peak(other.blocks(), old(self).replica())
                };
                if base >= other.counter() as int {
                    base
                } else {
                    other.counter() as int
                }
            }),
            merge_effect(*old(self), *other, *final(self)),
            final(self).blocks() == merge_fold(old(self).blocks(), other.blocks()),
    {
        // Advance the counter past any of this replica's own characters the
        // other side carries, so fresh identities stay fresh.
        let peak = Self::peak_of_client(other, self.client_id);
        if peak > self.clock {
            self.clock = peak;
        }
        proof {
            lemma_own_peak_bounds(other.blocks(), self.client_id);
            assert(self.wf()) by {
                assert forall|m: int|
                    0 <= m < self.blocks().len() && (#[trigger] self.blocks()[m]).id.client
                        == self.replica() implies self.blocks()[m].id.clock
                    + self.blocks()[m].content.len() <= self.counter() by {
                    assert(old(self).blocks()[m].id.clock + old(self).blocks()[m].content.len()
                        <= old(self).counter());
                }
            }
        }
        let ghost prior = *self;
        let mut u: usize = 0;
        while u < other.items.len()
            invariant
                prior.wf(),
                other.wf(),
                u <= other.items@.len(),
                compatible(prior.blocks(), other.blocks()),
                compatible(self.blocks(), other.blocks()),
                forall|j: int|
                    0 <= j < other.blocks().len() && (#[trigger] other.blocks()[j]).id.client
                        == prior.replica() ==> other.blocks()[j].id.clock
                        + other.blocks()[j].content.len() <= prior.counter(),
                cells_of(prior.blocks()).len() + cells_of(other.blocks()).len() <= usize::MAX,
                self.replica() == prior.replica(),
                self.counter() == prior.counter(),
                self.wf(),
                cells_of(self.blocks()).len() <= cells_of(prior.blocks()).len() + cells_of(
                    other.blocks().take(u as int),
                ).len(),
                cells_of(other.blocks().take(u as int)).len() <= cells_of(other.blocks()).len(),
                merge_prefix_effect(
                    prior,
                    cells_of(other.blocks().take(u as int)),
                    *self,
                ),
                self.blocks() == merge_fold(prior.blocks(), other.blocks().take(u as int)),
            decreases other.items@.len() - u,
        {
            let ghost o = other.blocks()[u as int];
            let ghost taken = other.blocks().take(u as int);
            let ghost taken1 = other.blocks().take(u + 1);
            let ghost before = *self;
            let ghost pb = self.blocks();
            proof {
                assert(other.blocks()[u as int] == other.items@[u as int]@);
                assert(taken1 =~= taken + seq![o]);
                lemma_blocks_concat(taken, seq![o]);
                assert(cells_of(seq![o]) =~= block_cells(o)) by {
                    assert(seq![o].drop_last() =~= Seq::<BlockView>::empty());
                    assert(cells_of(Seq::<BlockView>::empty()) =~= Seq::<CellView>::empty());
                }
                assert(cells_of(taken1) =~= cells_of(taken) + block_cells(o));
                // This block's characters are new to the prefix: distinct
                // blocks of one replica never overlap.
                assert forall|c: u64, kk: int| covers(o, c, kk) implies !has_cell(
                    cells_of(taken),
                    c,
                    kk,
                ) by {
                    lemma_cell_cover(taken, c, kk);
                    if has_cell(cells_of(taken), c, kk) {
                        let j = choose|j: int| 0 <= j < taken.len() && covers(taken[j], c, kk);
                        assert(taken[j] == other.blocks()[j]);
                        assert(other.blocks()[j].id != o.id || j == u);
                    }
                }
            }
            let found = self.index_of_id(other.items[u].id);
            match found {
                Some(i) => {
                    proof {
                        assert(pb[i as int].id == o.id);
                        assert(pb[i as int].content == o.content);
                    }
                    let flip = other.items[u].deleted && !self.items[i].deleted;
                    if flip {
                        let local = self.items.remove(i);
                        let tombstoned = Item {
                            id: local.id,
                            content: local.content,
                            left: local.left,
                            right: local.right,
                            deleted: true,
                        };
                        self.items.insert(i, tombstoned);
                    }
                    proof {
                        let nb = self.blocks();
                        assert(nb.len() == pb.len());
                        assert(forall|k: int|
                            0 <= k < nb.len() && k != i ==> #[trigger] nb[k] == pb[k]);
                        assert(nb[i as int].id == pb[i as int].id);
                        assert(nb[i as int].content == pb[i as int].content);
                        assert(nb[i as int].deleted == (pb[i as int].deleted || o.deleted));
                        lemma_cells_len_same(pb, nb);
                        assert(blocks_wf(nb));
                        assert(compatible(nb, other.blocks()));
                        lemma_merge_found_step(prior, before, *self, cells_of(taken), o, i as int);
                        lemma_cells_prefix(other.blocks(), u + 1);
                        assert(self.wf()) by {
                            assert forall|m: int|
                                0 <= m < nb.len() && (#[trigger] nb[m]).id.client
                                    == self.replica() implies nb[m].id.clock + nb[m].content.len()
                                <= self.counter() by {
                                if m != i {
                                    assert(nb[m] == pb[m]);
                                } else {
                                    assert(nb[m].id == pb[m].id && nb[m].content == pb[m].content);
                                }
                            }
                        }
                        // The step is the fold's flag-spreading case.
                        assert(nb[i as int].left == pb[i as int].left);
                        assert(nb[i as int].right == pb[i as int].right);
                        assert(find_id_from(pb, o.id, 0) == Some(i as int));
                        assert(nb =~= merge_step(pb, o)) by {
                            assert forall|m: int| 0 <= m < nb.len() implies nb[m] == merge_step(
                                pb,
                                o,
                            )[m] by {
                                if m != i {
                                    assert(nb[m] == pb[m]);
                                }
                            }
                        }
                        lemma_merge_fold_snoc(prior.blocks(), taken, o);
                        assert(taken1 =~= taken.push(o));
                        assert(self.blocks() == merge_fold(prior.blocks(), taken1));
                    }
                },
                None => {
                    let copied = other.items[u].clone();
                    proof {
                        assert(copied@ == o);
                        // The incoming block's characters are unknown here:
                        // no block shares its identifier, and blocks of one
                        // replica never overlap.
                        lemma_find_id_from_bounds(pb, o.id, 0);
                        assert forall|c: u64, kk: int| covers(o, c, kk) implies !has_cell(
                            before.cells(),
                            c,
                            kk,
                        ) by {
                            lemma_cell_cover(pb, c, kk);
                            if has_cell(before.cells(), c, kk) {
                                let j = choose|j: int|
                                    0 <= j < pb.len() && covers(#[trigger] pb[j], c, kk);
                                assert(pb[j].id != o.id);
                                assert(pb[j].id.client == o.id.client);
                            }
                        }
                    }
                    self.integrate_item(copied);
                    proof {
                        let k = integrate_pos(before.blocks(), o);
                        lemma_integrate_pos_bounds(before.blocks(), o);
                        assert(self.blocks() == before.blocks().insert(k, o));
                        assert(pb =~= pb.take(k) + pb.skip(k));
                        lemma_blocks_concat(pb.take(k), pb.skip(k));
                        assert(self.blocks() =~= pb.take(k) + (seq![o] + pb.skip(k)));
                        lemma_blocks_concat(pb.take(k), seq![o] + pb.skip(k));
                        lemma_blocks_concat(seq![o], pb.skip(k));
                        assert(cells_of(seq![o]) =~= block_cells(o)) by {
                            assert(seq![o].drop_last() =~= Seq::<BlockView>::empty());
                            assert(cells_of(Seq::<BlockView>::empty())
                                =~= Seq::<CellView>::empty());
                        }
                        assert(cells_of(self.blocks()) =~= cells_of(pb.take(k)) + (block_cells(o)
                            + cells_of(pb.skip(k))));
                        assert(cells_of(before.blocks()) =~= cells_of(pb.take(k)) + cells_of(
                            pb.skip(k),
                        ));
                        lemma_merge_fresh_step(prior, before, *self, cells_of(taken), o, pb, k);
                        // Structural health with the adopted block.
                        assert(blocks_wf(self.blocks())) by {
                            assert forall|x: int, y: int|
                                0 <= x < self.blocks().len() && 0 <= y < self.blocks().len() && x
                                    != y && (#[trigger] self.blocks()[x]).id.client == (
                                #[trigger] self.blocks()[y]).id.client implies (
                            self.blocks()[x].id.clock + self.blocks()[x].content.len()
                                <= self.blocks()[y].id.clock || self.blocks()[y].id.clock
                                + self.blocks()[y].content.len() <= self.blocks()[x].id.clock) by {
                                let px: int = if x < k {
                                    x
                                } else {
                                    x - 1
                                };
                                let py: int = if y < k {
                                    y
                                } else {
                                    y - 1
                                };
                                if x != k && y != k {
                                    assert(self.blocks()[x] == pb[px] && self.blocks()[y]
                                        == pb[py]);
                                } else if x == k {
                                    assert(self.blocks()[y] == pb[py]);
                                    assert(covers(o, o.id.client, o.id.clock as int));
                                } else {
                                    assert(self.blocks()[x] == pb[px]);
                                    assert(covers(o, o.id.client, o.id.clock as int));
                                }
                            }
                        }
                        lemma_cells_prefix(other.blocks(), u + 1);
                        assert(self.wf()) by {
                            assert forall|m: int|
                                0 <= m < self.blocks().len() && (#[trigger] self.blocks()[m]).id.client
                                    == self.replica() implies self.blocks()[m].id.clock
                                + self.blocks()[m].content.len() <= self.counter() by {
                                if m != k {
                                    let pm: int = if m < k {
                                        m
                                    } else {
                                        m - 1
                                    };
                                    assert(self.blocks()[m] == pb[pm]);
                                } else {
                                    assert(self.blocks()[m] == o);
                                    assert(o == other.blocks()[u as int]);
                                }
                            }
                        }
                        assert(find_id_from(pb, o.id, 0) is None);
                        assert(self.blocks() == merge_step(pb, o));
                        lemma_merge_fold_snoc(prior.blocks(), taken, o);
                        assert(taken1 =~= taken.push(o));
                        assert(self.blocks() == merge_fold(prior.blocks(), taken1));
                        assert(compatible(self.blocks(), other.blocks())) by {
                            assert forall|x: int, j: int|
                                0 <= x < self.blocks().len() && 0 <= j < other.blocks().len()
                                    implies (((#[trigger] self.blocks()[x]).id == (
                            #[trigger] other.blocks()[j]).id ==> self.blocks()[x].content
                                == other.blocks()[j].content) && (self.blocks()[x].id.client
                                == other.blocks()[j].id.client && self.blocks()[x].id
                                != other.blocks()[j].id ==> (self.blocks()[x].id.clock
                                + self.blocks()[x].content.len() <= other.blocks()[j].id.clock
                                || other.blocks()[j].id.clock + other.blocks()[j].content.len()
                                <= self.blocks()[x].id.clock))) by {
                                if x != k {
                                    let px: int = if x < k {
                                        x
                                    } else {
                                        x - 1
                                    };
                                    assert(self.blocks()[x] == pb[px]);
                                } else {
                                    assert(self.blocks()[x] == o);
                                    assert(o == other.blocks()[u as int]);
                                }
                            }
                        }
                    }
                },
            }
            u = u + 1;
        }
        proof {
            assert(other.blocks().take(other.blocks().len() as int) =~= other.blocks());
        }
        let ghost grown = *self;
        if other.clock > self.clock {
            self.clock = other.clock;
        }
        proof {
            assert(self.cells() == grown.cells());
            lemma_merge_effect_transfer(prior, *other, grown, *self);
            assert(self.blocks() == merge_fold(prior.blocks(), other.blocks()));
        }
    }

    /// Fuse every adjacent pair of blocks that one replica wrote
    /// consecutively with matching origins and matching tombstone flags.
    /// Purely an in-place compaction — the cells (characters, identities,
    /// flags) and the rendered text are untouched — for callers that want
    /// to reclaim the block overhead of long typing runs.
    #[verifier::rlimit(100)]
    pub fn merge_blocks(&mut self)
        requires
            old(self).wf(),
        ensures
            final(self).wf(),
            final(self).replica() == old(self).replica(),
            final(self).counter() == old(self).counter(),
            cells_of(final(self).blocks()) == cells_of(old(self).blocks()),
            render_blocks(final(self).blocks()) == render_blocks(old(self).blocks()),
    {
        let mut i: usize = 0;
        while self.items.len() >= 1 && i < self.items.len() - 1
            invariant
                i <= self.items@.len(),
                self.wf(),
                self.replica() == old(self).replica(),
                self.counter() == old(self).counter(),
                cells_of(self.blocks()) == cells_of(old(self).blocks()),
                render_blocks(self.blocks()) == render_blocks(old(self).blocks()),
            decreases self.items@.len() - i,
        {
            let ghost pb = self.blocks();
            let ghost old_items = self.items@;
            proof {
                assert(self.blocks()[i as int] == self.items@[i as int]@);
                assert(self.blocks()[i + 1] == self.items@[i + 1]@);
            }
            let a_client = self.items[i].id.client;
            let a_clock = self.items[i].id.clock;
            let a_len = self.items[i].content.as_str().unicode_len();
            let can = {
                let b = &self.items[i + 1];
                a_client == b.id.client && b.id.clock == a_clock + (a_len as u64)
                    && opt_id_eq(b.left, Some(ItemId { client: a_client, clock: a_clock }))
                    && opt_id_eq(b.right, self.items[i].right) && (self.items[i].deleted
                    == b.deleted)
            };
            if can {
                let second = self.items.remove(i + 1);
                let first = self.items.remove(i);
                let mut content = first.content;
                content.append(second.content.as_str());
                let fused = Item {
                    id: first.id,
                    content,
                    left: first.left,
                    right: second.right,
                    deleted: first.deleted,
                };
                self.items.insert(i, fused);
                proof {
                    let a = pb[i as int];
                    let b = pb[i + 1];
                    let f = self.items@[i as int]@;
                    assert(self.items@ =~= old_items.take(i as int) + seq![self.items@[i as int]]
                        + old_items.skip(i + 2));
                    let nb = self.blocks();
                    assert(nb =~= pb.take(i as int) + seq![f] + pb.skip(i + 2)) by {
                        assert(nb.len() == pb.len() - 1);
                        assert forall|j: int| 0 <= j < nb.len() implies nb[j] == (pb.take(i as int)
                            + seq![f] + pb.skip(i + 2))[j] by {
                            assert(nb[j] == self.items@[j]@);
                            if j < i {
                                assert(self.items@[j] == old_items[j]);
                                assert(pb[j] == old_items[j]@);
                            } else if j > i {
                                assert(self.items@[j] == old_items[j + 1]);
                                assert(pb[j + 1] == old_items[j + 1]@);
                            }
                        }
                    }
                    // The fused block's cells are exactly both blocks' cells.
                    assert(f.content =~= a.content + b.content);
                    assert(f.id == a.id && f.deleted == a.deleted && a.deleted == b.deleted);
                    assert(b.id.clock == a.id.clock + a.content.len());
                    assert(block_cells(f) =~= block_cells(a) + block_cells(b)) by {
                        assert forall|k: int|
                            0 <= k < f.content.len() implies block_cells(f)[k] == (block_cells(a)
                            + block_cells(b))[k] by {
                            if k < a.content.len() {
                                assert(f.content[k] == a.content[k]);
                            } else {
                                assert(f.content[k] == b.content[k - a.content.len()]);
                            }
                        }
                    }
                    // Decompose both block lists and match the pieces.
                    assert(pb =~= (pb.take(i as int) + seq![a] + seq![b]) + pb.skip(i + 2));
                    lemma_blocks_concat(pb.take(i as int) + seq![a] + seq![b], pb.skip(i + 2));
                    lemma_blocks_concat(pb.take(i as int) + seq![a], seq![b]);
                    lemma_blocks_concat(pb.take(i as int), seq![a]);
                    lemma_blocks_concat(pb.take(i as int) + seq![f], pb.skip(i + 2));
                    lemma_blocks_concat(pb.take(i as int), seq![f]);
                    assert(cells_of(seq![a]) =~= block_cells(a)) by {
                        assert(seq![a].drop_last() =~= Seq::<BlockView>::empty());
                        assert(cells_of(Seq::<BlockView>::empty()) =~= Seq::<CellView>::empty());
                    }
                    assert(cells_of(seq![b]) =~= block_cells(b)) by {
                        assert(seq![b].drop_last() =~= Seq::<BlockView>::empty());
                        assert(cells_of(Seq::<BlockView>::empty()) =~= Seq::<CellView>::empty());
                    }
                    assert(cells_of(seq![f]) =~= block_cells(f)) by {
                        assert(seq![f].drop_last() =~= Seq::<BlockView>::empty());
                        assert(cells_of(Seq::<BlockView>::empty()) =~= Seq::<CellView>::empty());
                    }
                    assert(cells_of(nb) =~= cells_of(pb));
                    assert(render_blocks(seq![a]) =~= (if a.deleted {
                        Seq::<char>::empty()
                    } else {
                        a.content
                    })) by {
                        assert(seq![a].drop_last() =~= Seq::<BlockView>::empty());
                        assert(render_blocks(Seq::<BlockView>::empty()) =~= Seq::<char>::empty());
                    }
                    assert(render_blocks(seq![b]) =~= (if b.deleted {
                        Seq::<char>::empty()
                    } else {
                        b.content
                    })) by {
                        assert(seq![b].drop_last() =~= Seq::<BlockView>::empty());
                        assert(render_blocks(Seq::<BlockView>::empty()) =~= Seq::<char>::empty());
                    }
                    assert(render_blocks(seq![f]) =~= (if f.deleted {
                        Seq::<char>::empty()
                    } else {
                        f.content
                    })) by {
                        assert(seq![f].drop_last() =~= Seq::<BlockView>::empty());
                        assert(render_blocks(Seq::<BlockView>::empty()) =~= Seq::<char>::empty());
                    }
                    assert(render_blocks(nb) =~= render_blocks(pb));
                    // Structural health: the fused range is the union of the
                    // two fused ranges, so it still clears everything else.
                    assert(blocks_wf(nb)) by {
                        assert forall|x: int, y: int|
                            0 <= x < nb.len() && 0 <= y < nb.len() && x != y && (#[trigger] nb[x]).id.client
                                == (#[trigger] nb[y]).id.client implies (nb[x].id.clock
                            + nb[x].content.len() <= nb[y].id.clock || nb[y].id.clock
                            + nb[y].content.len() <= nb[x].id.clock) by {
                            let px: int = if x < i {
                                x
                            } else {
                                x + 1
                            };
                            let py: int = if y < i {
                                y
                            } else {
                                y + 1
                            };
                            if x != i && y != i {
                                assert(nb[x] == pb[px] && nb[y] == pb[py]);
                            } else if x == i {
                                assert(nb[y] == pb[py]);
                                assert(pb[py].id.client == a.id.client);
                                if !(pb[py].id.clock + pb[py].content.len() <= a.id.clock) {
                                    assert(pb[py].id.clock >= a.id.clock + a.content.len());
                                    assert(pb[py].id.clock >= b.id.clock + b.content.len());
                                }
                            } else {
                                assert(nb[x] == pb[px]);
                                assert(pb[px].id.client == a.id.client);
                                if !(pb[px].id.clock + pb[px].content.len() <= a.id.clock) {
                                    assert(pb[px].id.clock >= a.id.clock + a.content.len());
                                    assert(pb[px].id.clock >= b.id.clock + b.content.len());
                                }
                            }
                        }
                    }
                }
            } else {
                i = i + 1;
            }
        }
    }
}

/// The block list after inserting the first `j` characters of `text`, one
/// single-character block each, all sharing the given origins, every block
/// placed by the YATA walk.
pub open spec fn insert_fold(
    blocks: Seq<BlockView>,
    client: u64,
    clock0: u64,
    text: Seq<char>,
    j: int,
    left: Option<ItemId>,
    right: Option<ItemId>,
) -> Seq<BlockView>
    decreases j,
{
    if j <= 0 {
        blocks
    } else {
        let prev = insert_fold(blocks, client, clock0, text, j - 1, left, right);
        let b = run_block(client, clock0, text, j - 1, left, right);
        prev.insert(integrate_pos(prev, b), b)
    }
}

/// One step of a merge: a block the replica already knows spreads only its
/// tombstone flag; an unknown block is adopted and placed by the YATA walk.
pub open spec fn merge_step(blocks: Seq<BlockView>, o: BlockView) -> Seq<BlockView> {
    match find_id_from(blocks, o.id, 0) {
        Some(i) => blocks.update(
            i,
            BlockView {
                id: blocks[i].id,
                content: blocks[i].content,
                left: blocks[i].left,
                right: blocks[i].right,
                deleted: blocks[i].deleted || o.deleted,
            },
        ),
        None => blocks.insert(integrate_pos(blocks, o), o),
    }
}

/// The block list after absorbing the incoming blocks, in order, one
/// [`merge_step`] each.
pub open spec fn merge_fold(blocks: Seq<BlockView>, incoming: Seq<BlockView>) -> Seq<BlockView>
    decreases incoming.len(),
{
    if incoming.len() == 0 {
        blocks
    } else {
        merge_fold(merge_step(blocks, incoming[0]), incoming.skip(1))
    }
}

/// Absorbing one more block folds onto the end.
pub proof fn lemma_merge_fold_snoc(base: Seq<BlockView>, s: Seq<BlockView>, x: BlockView)
    ensures
        merge_fold(base, s.push(x)) == merge_step(merge_fold(base, s), x),
    decreases s.len(),
{
    if s.len() == 0 {
        assert(s.push(x)[0] == x);
        assert(s.push(x).skip(1) =~= Seq::<BlockView>::empty());
        assert(merge_fold(merge_step(base, x), Seq::<BlockView>::empty()) == merge_step(
            base,
            x,
        ));
    } else {
        assert(s.push(x)[0] == s[0]);
        assert(s.push(x).skip(1) =~= s.skip(1).push(x));
        lemma_merge_fold_snoc(merge_step(base, s[0]), s.skip(1), x);
    }
}

/// Merging a replica's own blocks back into it changes nothing: every block
/// is already known, and its tombstone flag absorbs itself. A text merged
/// with a copy of itself therefore keeps its block list — and its rendered
/// text — unchanged (idempotence at the sequence level).
pub proof fn lemma_merge_fold_self(blocks: Seq<BlockView>)
    requires
        blocks_wf(blocks),
    ensures
        merge_fold(blocks, blocks) == blocks,
{
    lemma_merge_fold_self_prefix(blocks, blocks.len() as int);
    assert(blocks.take(blocks.len() as int) =~= blocks);
}

/// Folding any prefix of a healthy block list into itself is the identity.
proof fn lemma_merge_fold_self_prefix(blocks: Seq<BlockView>, u: int)
    requires
        blocks_wf(blocks),
        0 <= u <= blocks.len(),
    ensures
        merge_fold(blocks, blocks.take(u)) == blocks,
    decreases u,
{
    if u == 0 {
        assert(blocks.take(0) =~= Seq::<BlockView>::empty());
    } else {
        lemma_merge_fold_self_prefix(blocks, u - 1);
        assert(blocks.take(u) =~= blocks.take(u - 1).push(blocks[u - 1]));
        lemma_merge_fold_snoc(blocks, blocks.take(u - 1), blocks[u - 1]);
        let o = blocks[u - 1];
        // The block finds itself: identifiers are unique in a healthy list.
        lemma_find_id_from_bounds(blocks, o.id, 0);
        match find_id_from(blocks, o.id, 0) {
            Some(i) => {
                assert(i == u - 1) by {
                    if i != u - 1 {
                        assert(blocks[i].id == blocks[u - 1].id);
                        assert(covers(blocks[i], o.id.client, o.id.clock as int));
                        assert(covers(blocks[u - 1], o.id.client, o.id.clock as int));
                    }
                }
                assert(merge_step(blocks, o) =~= blocks);
            },
            None => {
                assert(blocks[u - 1].id == o.id);
            },
        }
    }
}

/// The largest counter any block of `client` in the list reaches: one past
/// its last character.
pub open spec fn own_peak(blocks: Seq<BlockView>, client: u64) -> int
    decreases blocks.len(),
{
    if blocks.len() == 0 {
        0
    } else {
        let prev = own_peak(blocks.drop_last(), client);
        let last_end: int = if blocks.last().id.client == client {
            blocks.last().id.clock + blocks.last().content.len()
        } else {
            0
        };
        if prev >= last_end {
            prev
        } else {
            last_end
        }
    }
}

/// Every block of `client` ends at or below the peak, and the peak is not
/// negative.
pub proof fn lemma_own_peak_bounds(blocks: Seq<BlockView>, client: u64)
    ensures
        own_peak(blocks, client) >= 0,
        forall|j: int|
            0 <= j < blocks.len() && (#[trigger] blocks[j]).id.client == client ==> blocks[j].id.clock
                + blocks[j].content.len() <= own_peak(blocks, client),
    decreases blocks.len(),
{
    if blocks.len() > 0 {
        lemma_own_peak_bounds(blocks.drop_last(), client);
        assert(forall|j: int|
            0 <= j < blocks.drop_last().len() ==> blocks.drop_last()[j] == blocks[j]);
    }
}

/// An anchored position lies in range on a visible block.
proof fn lemma_anchor_scan_bounds(blocks: Seq<BlockView>, position: int, s: int)
    requires
        0 <= s,
    ensures
        match anchor_scan(blocks, position, s) {
            Some(t) => s <= t < blocks.len() && !blocks[t].deleted,
            None => true,
        },
    decreases blocks.len() - s,
{
    if s < blocks.len() {
        lemma_anchor_scan_bounds(blocks, position, s + 1);
    }
}

/// Inserting with a known left origin builds exactly the fresh run at the
/// walk's landing place, between the untouched halves of the old list.
proof fn lemma_insert_fold_anchored(
    blocks: Seq<BlockView>,
    client: u64,
    clock0: u64,
    text: Seq<char>,
    j: int,
    t: int,
    rr: Option<ItemId>,
    k: int,
)
    requires
        blocks_wf(blocks),
        clock0 + text.len() <= u64::MAX,
        0 <= j <= text.len(),
        forall|w: int|
            0 <= w < blocks.len() && (#[trigger] blocks[w]).id.client == client ==> blocks[w].id.clock
                + blocks[w].content.len() <= clock0,
        0 <= t < blocks.len(),
        rr matches Some(rid) ==> exists|rt: int|
            0 <= rt < blocks.len() && (#[trigger] blocks[rt]).id == rid,
        k == yata_scan(
            blocks,
            run_block(client, clock0, text, 0, Some(blocks[t].id), rr),
            t + 1,
        ),
    ensures
        t + 1 <= k <= blocks.len(),
        insert_fold(blocks, client, clock0, text, j, Some(blocks[t].id), rr) == blocks.take(k)
            + char_run(client, clock0, text, j, Some(blocks[t].id), rr) + blocks.skip(k),
    decreases j,
{
    let lid = blocks[t].id;
    let left = Some(lid);
    let b0 = run_block(client, clock0, text, 0, left, rr);
    lemma_yata_scan_bounds(blocks, b0, t + 1);
    if j <= 0 {
        assert(char_run(client, clock0, text, 0, left, rr) =~= Seq::<BlockView>::empty());
        assert(blocks.take(k) + Seq::<BlockView>::empty() + blocks.skip(k) =~= blocks);
    } else {
        lemma_insert_fold_anchored(blocks, client, clock0, text, j - 1, t, rr, k);
        let run = char_run(client, clock0, text, j - 1, left, rr);
        lemma_char_run_len(client, clock0, text, j - 1, left, rr);
        let prev = blocks.take(k) + run + blocks.skip(k);
        let b = run_block(client, clock0, text, j - 1, left, rr);
        // The left origin sits untouched at its old index, still first.
        assert forall|w: int| 0 <= w < t implies (#[trigger] prev[w]).id != lid by {
            assert(prev[w] == blocks[w]);
            if blocks[w].id == lid {
                assert(covers(blocks[w], lid.client, lid.clock as int));
                assert(covers(blocks[t], lid.client, lid.clock as int));
            }
        }
        assert(prev[t] == blocks[t]);
        lemma_find_id_first(prev, lid, t);
        // The later character walks to the same stop, then past the run.
        lemma_yata_scan_replay(blocks, b0, b, t + 1);
        assert forall|w: int|
            0 <= w < run.len() implies (#[trigger] run[w]).left == b.left && id_lt(
            run[w].id,
            b.id,
        ) && (b.right matches Some(rid) ==> run[w].id != rid) by {
            lemma_char_run_shape(client, clock0, text, j - 1, left, rr, w);
            match rr {
                Some(rid) => {
                    let rt = choose|rt: int|
                        0 <= rt < blocks.len() && (#[trigger] blocks[rt]).id == rid;
                    if rid.client == client {
                        assert(blocks[rt].id.clock + blocks[rt].content.len() <= clock0);
                        assert(blocks[rt].content.len() >= 1);
                    }
                },
                None => {},
            }
        }
        lemma_yata_scan_splice(blocks, run, b, t + 1, k);
        assert(integrate_pos(prev, b) == k + (j - 1));
        assert(prev.insert(k + (j - 1), b) =~= blocks.take(k) + char_run(
            client,
            clock0,
            text,
            j,
            left,
            rr,
        ) + blocks.skip(k)) by {
            lemma_char_run_len(client, clock0, text, j, left, rr);
            assert(char_run(client, clock0, text, j, left, rr) == run.push(b));
        }
    }
}

/// The rendered position where an insertion's characters land: the
/// rendered end of the block the position falls in; zero at the head; the
/// rendered end past the end.
pub open spec fn insert_anchor(blocks: Seq<BlockView>, position: int) -> int {
    if position == 0 {
        0
    } else {
        match anchor_scan(blocks, position, 0) {
            Some(t) => render_blocks(blocks.take(t + 1)).len() as int,
            None => render_blocks(blocks).len() as int,
        }
    }
}

/// The splice law: inserting `text` at `position` renders the old text with
/// `text` spliced in at the anchor. Combine with `insert`'s block-list
/// clause: the characters land at the visible position they were asked for,
/// up to the block granularity the origins use.
pub proof fn lemma_insert_renders_at(
    blocks: Seq<BlockView>,
    client: u64,
    clock0: u64,
    text: Seq<char>,
    position: int,
)
    requires
        blocks_wf(blocks),
        clock0 + text.len() <= u64::MAX,
        0 <= position,
        forall|w: int|
            0 <= w < blocks.len() && (#[trigger] blocks[w]).id.client == client ==> blocks[w].id.clock
                + blocks[w].content.len() <= clock0,
    ensures
        render_blocks(
            insert_fold(
                blocks,
                client,
                clock0,
                text,
                text.len() as int,
                origins_of(blocks, position).0,
                origins_of(blocks, position).1,
            ),
        ) == render_blocks(blocks).take(insert_anchor(blocks, position)) + text + render_blocks(
            blocks,
        ).skip(insert_anchor(blocks, position)),
{
    let n = text.len() as int;
    let rendered = render_blocks(blocks);
    if position == 0 || blocks.len() == 0 {
        assert(origins_of(blocks, position) == origins_of(blocks, 0));
        lemma_insert_at_head_renders(blocks, client, clock0, text);
        assert(insert_anchor(blocks, position) == 0) by {
            if position != 0 {
                lemma_anchor_scan_bounds(blocks, position, 0);
            }
        }
        assert(rendered.take(0) =~= Seq::<char>::empty());
        assert(rendered.skip(0) =~= rendered);
        assert(Seq::<char>::empty() + text + rendered =~= text + rendered);
    } else {
        lemma_anchor_scan_bounds(blocks, position, 0);
        let (t, rr): (int, Option<ItemId>) = match anchor_scan(blocks, position, 0) {
            Some(t) => (t, next_visible_from(blocks, t + 1)),
            None => ((blocks.len() - 1) as int, None),
        };
        assert(0 <= t < blocks.len());
        assert(origins_of(blocks, position) == (Some(blocks[t].id), rr)) by {
            match anchor_scan(blocks, position, 0) {
                Some(_) => {},
                None => {},
            }
        }
        let left = Some(blocks[t].id);
        let b0 = run_block(client, clock0, text, 0, left, rr);
        let k = yata_scan(blocks, b0, t + 1);
        // The right origin really occurs, when there is one.
        assert(rr matches Some(rid) ==> exists|rt: int|
            0 <= rt < blocks.len() && (#[trigger] blocks[rt]).id == rid) by {
            if t + 1 < blocks.len() {
                lemma_next_visible_gap(blocks, t + 1, t + 1);
            }
        }
        lemma_insert_fold_anchored(blocks, client, clock0, text, n, t, rr, k);
        let run = char_run(client, clock0, text, n, left, rr);
        lemma_blocks_concat(blocks.take(k) + run, blocks.skip(k));
        lemma_blocks_concat(blocks.take(k), run);
        lemma_char_run_renders(client, clock0, text, n, left, rr);
        assert(text.take(n) =~= text);
        // Everything between the left origin and the landing place is
        // tombstoned, so the rendered anchor is the left origin's end.
        assert forall|w: int| t + 1 <= w < k implies (#[trigger] blocks[w]).deleted by {
            match rr {
                Some(rid) => {
                    lemma_next_visible_gap(blocks, t + 1, w);
                    let v = choose|v: int|
                        t + 1 <= v < blocks.len() && !(#[trigger] blocks[v]).deleted && blocks[
                        v].id == rid && (forall|x: int|
                            t + 1 <= x < v ==> (#[trigger] blocks[x]).deleted);
                    lemma_yata_scan_le_right(blocks, b0, t + 1, v);
                },
                None => {
                    lemma_next_visible_gap(blocks, t + 1, w);
                },
            }
        }
        lemma_render_deleted_range(blocks, t + 1, k);
        // Assemble the splice.
        let anchor = insert_anchor(blocks, position);
        assert(blocks =~= blocks.take(t + 1) + blocks.skip(t + 1));
        lemma_blocks_concat(blocks.take(t + 1), blocks.skip(t + 1));
        assert(anchor == render_blocks(blocks.take(t + 1)).len()) by {
            match anchor_scan(blocks, position, 0) {
                Some(_) => {},
                None => {
                    assert(blocks.take(t + 1) =~= blocks);
                },
            }
        }
        assert(rendered.take(anchor) =~= render_blocks(blocks.take(t + 1)));
        assert(rendered.skip(anchor) =~= render_blocks(blocks.skip(t + 1)));
        // The deleted stretch renders nothing, so both halves agree.
        let seg = blocks.subrange(t + 1, k);
        assert(blocks.skip(t + 1) =~= seg + blocks.skip(k));
        lemma_blocks_concat(seg, blocks.skip(k));
        assert(render_blocks(seg) =~= Seq::<char>::empty()) by {
            assert(forall|w: int| 0 <= w < seg.len() ==> (#[trigger] seg[w]).deleted);
            lemma_render_deleted_range(seg, 0, seg.len() as int);
            assert(seg.take(seg.len() as int) =~= seg);
            assert(seg.take(0) =~= Seq::<BlockView>::empty());
            assert(render_blocks(Seq::<BlockView>::empty()) =~= Seq::<char>::empty());
        }
        assert(render_blocks(blocks.take(k)) == render_blocks(blocks.take(t + 1)));
        assert(render_blocks(
            insert_fold(blocks, client, clock0, text, n, left, rr),
        ) =~= rendered.take(anchor) + text + rendered.skip(anchor));
    }
}

/// Merging a text with a copy of itself leaves the block list, and with it
/// the rendered string, exactly as it was (idempotence of merge, at the
/// sequence level): combine with `merge`'s own block-list clause.
pub proof fn lemma_text_self_merge(a: Text, merged: Text)
    requires
        blocks_wf(a.blocks()),
        merged.blocks() == merge_fold(a.blocks(), a.blocks()),
    ensures
        merged.blocks() == a.blocks(),
        merged.render() == a.render(),
{
    lemma_merge_fold_self(a.blocks());
}

/// The walk never passes its right origin.
proof fn lemma_yata_scan_le_right(blocks: Seq<BlockView>, item: BlockView, s: int, rt: int)
    requires
        0 <= s <= rt < blocks.len(),
        item.right == Some(blocks[rt].id),
    ensures
        yata_scan(blocks, item, s) <= rt,
    decreases rt - s,
{
    if s < rt {
        lemma_yata_scan_le_right(blocks, item, s + 1, rt);
    }
}

/// Two arrivals with the same origins and the same replica, both stamped
/// beyond every block that replica has in the list, walk to the same place.
proof fn lemma_yata_scan_replay(
    blocks: Seq<BlockView>,
    first: BlockView,
    second: BlockView,
    s: int,
)
    requires
        0 <= s,
        first.left == second.left,
        first.right == second.right,
        first.id.client == second.id.client,
        forall|w: int|
            0 <= w < blocks.len() && (#[trigger] blocks[w]).id.client == first.id.client
                ==> id_lt(blocks[w].id, first.id) && id_lt(blocks[w].id, second.id),
    ensures
        yata_scan(blocks, first, s) == yata_scan(blocks, second, s),
    decreases blocks.len() - s,
{
    if s < blocks.len() {
        lemma_yata_scan_replay(blocks, first, second, s + 1);
    }
}

/// Splicing an already-placed run into the list carries the walk to the end
/// of the run: it replays its advances over the unchanged prefix, passes the
/// whole run, and stops where it stopped before.
proof fn lemma_yata_scan_splice(
    blocks: Seq<BlockView>,
    run: Seq<BlockView>,
    item: BlockView,
    s: int,
    k: int,
)
    requires
        0 <= s <= k <= blocks.len(),
        yata_scan(blocks, item, s) == k,
        forall|w: int|
            0 <= w < run.len() ==> (#[trigger] run[w]).left == item.left && id_lt(
                run[w].id,
                item.id,
            ) && (item.right matches Some(rid) ==> run[w].id != rid),
    ensures
        yata_scan(blocks.take(k) + run + blocks.skip(k), item, s) == k + run.len(),
    decreases k - s,
{
    let spliced = blocks.take(k) + run + blocks.skip(k);
    assert(spliced.len() == blocks.len() + run.len());
    if s < k {
        assert(spliced[s] == blocks[s]);
        assert(yata_scan(blocks, item, s + 1) == k);
        lemma_yata_scan_splice(blocks, run, item, s + 1, k);
    } else {
        lemma_yata_scan_splice_run(blocks, run, item, k, 0);
    }
}

/// The tail half of the splice walk: from the start of the run to its end,
/// then the old stop replays.
proof fn lemma_yata_scan_splice_run(
    blocks: Seq<BlockView>,
    run: Seq<BlockView>,
    item: BlockView,
    k: int,
    m: int,
)
    requires
        0 <= k <= blocks.len(),
        yata_scan(blocks, item, k) == k,
        0 <= m <= run.len(),
        forall|w: int|
            0 <= w < run.len() ==> (#[trigger] run[w]).left == item.left && id_lt(
                run[w].id,
                item.id,
            ) && (item.right matches Some(rid) ==> run[w].id != rid),
    ensures
        yata_scan(blocks.take(k) + run + blocks.skip(k), item, k + m) == k + run.len(),
    decreases run.len() - m,
{
    let spliced = blocks.take(k) + run + blocks.skip(k);
    if k < blocks.len() {
        lemma_yata_scan_bounds(blocks, item, k + 1);
    }
    if m < run.len() {
        assert(spliced[k + m] == run[m]);
        lemma_yata_scan_splice_run(blocks, run, item, k, m + 1);
    } else {
        if k == blocks.len() {
            assert(spliced.len() == k + run.len());
        } else {
            assert(spliced[k + run.len()] == blocks[k]);
        }
    }
}

/// The first index carrying `id`, characterized from the front.
proof fn lemma_find_id_first(blocks: Seq<BlockView>, id: ItemId, t: int)
    requires
        0 <= t < blocks.len(),
        blocks[t].id == id,
        forall|w: int| 0 <= w < t ==> (#[trigger] blocks[w]).id != id,
    ensures
        find_id_from(blocks, id, 0) == Some(t),
{
    lemma_find_id_first_from(blocks, id, t, 0);
}

/// As above, from an arbitrary start at or before the first occurrence.
proof fn lemma_find_id_first_from(blocks: Seq<BlockView>, id: ItemId, t: int, s: int)
    requires
        0 <= s <= t < blocks.len(),
        blocks[t].id == id,
        forall|w: int| s <= w < t ==> (#[trigger] blocks[w]).id != id,
    ensures
        find_id_from(blocks, id, s) == Some(t),
    decreases t - s,
{
    if s < t {
        lemma_find_id_first_from(blocks, id, t, s + 1);
    }
}

/// Tombstoned stretches render nothing: the rendered prefix is unchanged
/// across a range of deleted blocks.
proof fn lemma_render_deleted_range(blocks: Seq<BlockView>, a: int, b: int)
    requires
        0 <= a <= b <= blocks.len(),
        forall|w: int| a <= w < b ==> (#[trigger] blocks[w]).deleted,
    ensures
        render_blocks(blocks.take(b)) == render_blocks(blocks.take(a)),
    decreases b - a,
{
    if a < b {
        lemma_render_deleted_range(blocks, a, b - 1);
        assert(blocks.take(b).drop_last() =~= blocks.take(b - 1));
        assert(blocks.take(b).last() == blocks[b - 1]);
        assert(render_blocks(blocks.take(b)) =~= render_blocks(blocks.take(b - 1)));
    }
}

/// Every block before the next visible one is deleted.
proof fn lemma_next_visible_gap(blocks: Seq<BlockView>, u: int, w: int)
    requires
        0 <= u <= w < blocks.len(),
    ensures
        match next_visible_from(blocks, u) {
            Some(id) => (exists|v: int|
                u <= v < blocks.len() && !(#[trigger] blocks[v]).deleted && blocks[v].id == id
                    && (forall|x: int| u <= x < v ==> (#[trigger] blocks[x]).deleted)),
            None => blocks[w].deleted,
        },
    decreases blocks.len() - u,
{
    if !blocks[u].deleted {
        assert(next_visible_from(blocks, u) == Some(blocks[u].id));
        assert(forall|x: int| u <= x < u ==> (#[trigger] blocks[x]).deleted);
    } else {
        if u < w {
            lemma_next_visible_gap(blocks, u + 1, w);
            match next_visible_from(blocks, u + 1) {
                Some(id) => {
                    let v = choose|v: int|
                        u + 1 <= v < blocks.len() && !(#[trigger] blocks[v]).deleted && blocks[
                        v].id == id && (forall|x: int|
                            u + 1 <= x < v ==> (#[trigger] blocks[x]).deleted);
                    assert(forall|x: int| u <= x < v ==> (#[trigger] blocks[x]).deleted);
                },
                None => {},
            }
        } else {
            // w == u and blocks[u] is deleted.
            if u + 1 < blocks.len() {
                lemma_next_visible_gap(blocks, u + 1, u + 1);
            }
            match next_visible_from(blocks, u) {
                Some(id) => {
                    assert(next_visible_from(blocks, u + 1) == Some(id));
                    if u + 1 < blocks.len() {
                        let v = choose|v: int|
                            u + 1 <= v < blocks.len() && !(#[trigger] blocks[v]).deleted && blocks[
                            v].id == id && (forall|x: int|
                                u + 1 <= x < v ==> (#[trigger] blocks[x]).deleted);
                        assert(forall|x: int| u <= x < v ==> (#[trigger] blocks[x]).deleted);
                    }
                },
                None => {},
            }
        }
    }
}

/// The single-character block that the `m`-th inserted character forms.
pub open spec fn run_block(
    client: u64,
    clock0: u64,
    text: Seq<char>,
    m: int,
    left: Option<ItemId>,
    right: Option<ItemId>,
) -> BlockView {
    BlockView {
        id: ItemId { client, clock: (clock0 + m) as u64 },
        content: seq![text[m]],
        left,
        right,
        deleted: false,
    }
}

/// The run of single-character blocks that inserting the first `j`
/// characters of `text` creates, in counter order, all sharing the given
/// origins.
pub open spec fn char_run(
    client: u64,
    clock0: u64,
    text: Seq<char>,
    j: int,
    left: Option<ItemId>,
    right: Option<ItemId>,
) -> Seq<BlockView>
    decreases j,
{
    if j <= 0 {
        Seq::empty()
    } else {
        char_run(client, clock0, text, j - 1, left, right).push(
            run_block(client, clock0, text, j - 1, left, right),
        )
    }
}

/// The head walk carries a fresh run to its end: every block of the run is
/// passed (each precedes the new block in identifier order), and the walk
/// stops right before the first old block.
proof fn lemma_head_scan_run(
    blocks: Seq<BlockView>,
    run: Seq<BlockView>,
    item: BlockView,
    m: int,
)
    requires
        item.left is None,
        blocks.len() > 0 ==> item.right == Some(blocks[0].id),
        blocks.len() == 0 ==> item.right is None,
        forall|w: int|
            0 <= w < run.len() ==> (#[trigger] run[w]).left is None && id_lt(run[w].id, item.id)
                && (blocks.len() > 0 ==> run[w].id != blocks[0].id),
        0 <= m <= run.len(),
    ensures
        yata_head_scan(run + blocks, item, m) == run.len(),
    decreases run.len() - m,
{
    let s = run + blocks;
    if m < run.len() {
        assert(s[m] == run[m]);
        lemma_head_scan_run(blocks, run, item, m + 1);
    } else {
        if blocks.len() == 0 {
            assert(s.len() == run.len());
        } else {
            assert(s[m] == blocks[0]);
        }
    }
}

/// Inserting at the head builds exactly the fresh run followed by the old
/// blocks.
proof fn lemma_insert_fold_head(
    blocks: Seq<BlockView>,
    client: u64,
    clock0: u64,
    text: Seq<char>,
    j: int,
)
    requires
        blocks_wf(blocks),
        clock0 + text.len() <= u64::MAX,
        0 <= j <= text.len(),
        forall|w: int|
            0 <= w < blocks.len() && (#[trigger] blocks[w]).id.client == client ==> blocks[w].id.clock
                + blocks[w].content.len() <= clock0,
    ensures
        insert_fold(
            blocks,
            client,
            clock0,
            text,
            j,
            origins_of(blocks, 0).0,
            origins_of(blocks, 0).1,
        ) == char_run(client, clock0, text, j, None, origins_of(blocks, 0).1) + blocks,
    decreases j,
{
    let right = origins_of(blocks, 0).1;
    if j == 0 {
        assert(char_run(client, clock0, text, 0, None, right) + blocks =~= blocks);
    } else {
        lemma_insert_fold_head(blocks, client, clock0, text, j - 1);
        let run = char_run(client, clock0, text, j - 1, None, right);
        let prev = run + blocks;
        let b = BlockView {
            id: ItemId { client, clock: (clock0 + (j - 1)) as u64 },
            content: seq![text[j - 1]],
            left: None,
            right,
            deleted: false,
        };
        assert(b.left is None);
        assert forall|w: int|
            0 <= w < run.len() implies (#[trigger] run[w]).left is None && id_lt(run[w].id, b.id)
                && (blocks.len() > 0 ==> run[w].id != blocks[0].id) by {
            lemma_char_run_shape(client, clock0, text, j - 1, None, right, w);
            if blocks.len() > 0 {
                if blocks[0].id.client == client {
                    assert(blocks[0].id.clock + blocks[0].content.len() <= clock0);
                    assert(blocks[0].content.len() >= 1);
                }
            }
        }
        lemma_head_scan_run(blocks, run, b, 0);
        assert(integrate_pos(prev, b) == j - 1) by {
            assert(yata_head_scan(run + blocks, b, 0) == run.len());
            assert(run.len() == j - 1) by {
                lemma_char_run_len(client, clock0, text, j - 1, None, right);
            }
        }
        assert(prev.insert(j - 1, b) =~= char_run(client, clock0, text, j, None, right) + blocks) by {
            lemma_char_run_len(client, clock0, text, j - 1, None, right);
            lemma_char_run_len(client, clock0, text, j, None, right);
            assert(char_run(client, clock0, text, j, None, right) == char_run(
                client,
                clock0,
                text,
                j - 1,
                None,
                right,
            ).push(b));
        }
    }
}

/// A character run has one block per character.
proof fn lemma_char_run_len(
    client: u64,
    clock0: u64,
    text: Seq<char>,
    j: int,
    left: Option<ItemId>,
    right: Option<ItemId>,
)
    ensures
        char_run(client, clock0, text, j, left, right).len() == (if j <= 0 {
            0int
        } else {
            j
        }),
    decreases j,
{
    if j > 0 {
        lemma_char_run_len(client, clock0, text, j - 1, left, right);
    }
}

/// Each block of a character run is the single character it was made from.
proof fn lemma_char_run_shape(
    client: u64,
    clock0: u64,
    text: Seq<char>,
    j: int,
    left: Option<ItemId>,
    right: Option<ItemId>,
    w: int,
)
    requires
        clock0 + j <= u64::MAX,
        0 <= w < char_run(client, clock0, text, j, left, right).len(),
    ensures
        char_run(client, clock0, text, j, left, right)[w] == (BlockView {
            id: ItemId { client, clock: (clock0 + w) as u64 },
            content: seq![text[w]],
            left,
            right,
            deleted: false,
        }),
        w < j,
    decreases j,
{
    lemma_char_run_len(client, clock0, text, j, left, right);
    if j > 0 {
        if w < j - 1 {
            lemma_char_run_len(client, clock0, text, j - 1, left, right);
            lemma_char_run_shape(client, clock0, text, j - 1, left, right, w);
        }
    }
}

/// Head insertions prepend: inserting `text` at position zero renders the
/// inserted characters followed by what was rendered before. In particular
/// an insertion into an empty text renders exactly the inserted text.
pub proof fn lemma_insert_at_head_renders(
    blocks: Seq<BlockView>,
    client: u64,
    clock0: u64,
    text: Seq<char>,
)
    requires
        blocks_wf(blocks),
        clock0 + text.len() <= u64::MAX,
        forall|w: int|
            0 <= w < blocks.len() && (#[trigger] blocks[w]).id.client == client ==> blocks[w].id.clock
                + blocks[w].content.len() <= clock0,
    ensures
        render_blocks(
            insert_fold(
                blocks,
                client,
                clock0,
                text,
                text.len() as int,
                origins_of(blocks, 0).0,
                origins_of(blocks, 0).1,
            ),
        ) == text + render_blocks(blocks),
{
    let n = text.len() as int;
    let right = origins_of(blocks, 0).1;
    lemma_insert_fold_head(blocks, client, clock0, text, n);
    let run = char_run(client, clock0, text, n, None, right);
    lemma_blocks_concat(run, blocks);
    assert(render_blocks(run) =~= text) by {
        lemma_char_run_renders(client, clock0, text, n, None, right);
    }
}

/// A character run renders the characters it was made from.
proof fn lemma_char_run_renders(
    client: u64,
    clock0: u64,
    text: Seq<char>,
    j: int,
    left: Option<ItemId>,
    right: Option<ItemId>,
)
    requires
        0 <= j <= text.len(),
    ensures
        render_blocks(char_run(client, clock0, text, j, left, right)) == text.take(j),
    decreases j,
{
    lemma_char_run_len(client, clock0, text, j, left, right);
    if j == 0 {
        assert(char_run(client, clock0, text, 0, left, right) =~= Seq::<BlockView>::empty());
        assert(text.take(0) =~= Seq::<char>::empty());
    } else {
        lemma_char_run_renders(client, clock0, text, j - 1, left, right);
        let run = char_run(client, clock0, text, j, left, right);
        assert(run.drop_last() =~= char_run(client, clock0, text, j - 1, left, right));
        assert(!run.last().deleted && run.last().content == seq![text[j - 1]]);
        assert(text.take(j) =~= text.take(j - 1) + seq![text[j - 1]]);
    }
}

/// What inserting `j` characters of `text` into `prior` leaves behind:
/// every old character keeps its cell untouched, and characters `0..j` of
/// `text` appear as fresh live cells of `prior`'s replica, owning the
/// counter values from `prior`'s reading on.
pub open spec fn insert_effect(prior: Text, cur: Text, text: Seq<char>, j: int) -> bool {
    &&& (forall|c: u64, kk: int| #[trigger]
        has_cell(cur.cells(), c, kk) <==> (has_cell(prior.cells(), c, kk) || (c == prior.replica()
            && prior.counter() <= kk < prior.counter() + j)))
    &&& (forall|c: u64, kk: int|
        has_cell(prior.cells(), c, kk) ==> #[trigger] cell_find(cur.cells(), c, kk) == cell_find(
            prior.cells(),
            c,
            kk,
        ))
    &&& (forall|k: int|
        0 <= k < j ==> #[trigger] cell_find(cur.cells(), prior.replica(), prior.counter() + k)
            == (CellView {
            client: prior.replica(),
            clock: prior.counter() + k,
            ch: text[k],
            deleted: false,
        }))
}

/// The identifiers of the first `t` blocks that a deletion of `length`
/// characters at `position` newly tombstones: the visible blocks whose
/// rendered range meets the window.
pub open spec fn tombstoned_ids(
    blocks: Seq<BlockView>,
    position: int,
    length: int,
    t: int,
) -> Seq<ItemId>
    decreases t,
{
    if t <= 0 {
        Seq::empty()
    } else {
        let prefix = tombstoned_ids(blocks, position, length, t - 1);
        let b = blocks[t - 1];
        let start = render_blocks(blocks.take(t - 1)).len();
        if !b.deleted && start < position + length && start + b.content.len() > position {
            prefix.push(b.id)
        } else {
            prefix
        }
    }
}

/// What merging `other` into `prior` leaves behind, cell by cell: the
/// character identities are the union of both sides', every character keeps
/// the character it had wherever it was known, and a character is deleted
/// exactly when either side had deleted it.
pub open spec fn merge_effect(prior: Text, other: Text, cur: Text) -> bool {
    &&& (forall|c: u64, kk: int| #[trigger]
        has_cell(cur.cells(), c, kk) <==> (has_cell(prior.cells(), c, kk) || has_cell(
            other.cells(),
            c,
            kk,
        )))
    &&& (forall|c: u64, kk: int|
        has_cell(prior.cells(), c, kk) ==> #[trigger] cell_find(cur.cells(), c, kk).ch
            == cell_find(prior.cells(), c, kk).ch)
    &&& (forall|c: u64, kk: int|
        !has_cell(prior.cells(), c, kk) && has_cell(other.cells(), c, kk) ==> #[trigger] cell_find(
            cur.cells(),
            c,
            kk,
        ).ch == cell_find(other.cells(), c, kk).ch)
    &&& (forall|c: u64, kk: int| #[trigger]
        has_cell(cur.cells(), c, kk) ==> (cell_find(cur.cells(), c, kk).deleted <==> ((has_cell(
            prior.cells(),
            c,
            kk,
        ) && cell_find(prior.cells(), c, kk).deleted) || (has_cell(other.cells(), c, kk)
            && cell_find(other.cells(), c, kk).deleted))))
}

/// Two replicas' block lists agree on their shared history: a block
/// identifier always names the same content, and distinct blocks of one
/// replica never overlap in character identities. This holds between
/// genuine replicas of one document, where an identifier is assigned once.
pub open spec fn compatible(a: Seq<BlockView>, b: Seq<BlockView>) -> bool {
    forall|i: int, j: int|
        0 <= i < a.len() && 0 <= j < b.len() ==> (((#[trigger] a[i]).id == (#[trigger] b[j]).id
            ==> a[i].content == b[j].content) && (a[i].id.client == b[j].id.client && a[i].id
            != b[j].id ==> (a[i].id.clock + a[i].content.len() <= b[j].id.clock || b[j].id.clock
            + b[j].content.len() <= a[i].id.clock)))
}

/// As [`merge_effect`], but against an explicit list of already-absorbed
/// remote cells.
pub open spec fn merge_prefix_effect(prior: Text, absorbed: Seq<CellView>, cur: Text) -> bool {
    &&& (forall|c: u64, kk: int| #[trigger]
        has_cell(cur.cells(), c, kk) <==> (has_cell(prior.cells(), c, kk) || has_cell(
            absorbed,
            c,
            kk,
        )))
    &&& (forall|c: u64, kk: int|
        has_cell(prior.cells(), c, kk) ==> #[trigger] cell_find(cur.cells(), c, kk).ch
            == cell_find(prior.cells(), c, kk).ch)
    &&& (forall|c: u64, kk: int|
        !has_cell(prior.cells(), c, kk) && has_cell(absorbed, c, kk) ==> #[trigger] cell_find(
            cur.cells(),
            c,
            kk,
        ).ch == cell_find(absorbed, c, kk).ch)
    &&& (forall|c: u64, kk: int| #[trigger]
        has_cell(cur.cells(), c, kk) ==> (cell_find(cur.cells(), c, kk).deleted <==> ((has_cell(
            prior.cells(),
            c,
            kk,
        ) && cell_find(prior.cells(), c, kk).deleted) || (has_cell(absorbed, c, kk) && cell_find(
            absorbed,
            c,
            kk,
        ).deleted))))
}

/// In a healthy block list, the block carrying a character is unique.
proof fn lemma_cover_unique(blocks: Seq<BlockView>, i: int, c: u64, kk: int)
    requires
        blocks_wf(blocks),
        0 <= i < blocks.len(),
        covers(blocks[i], c, kk),
    ensures
        forall|j: int| 0 <= j < blocks.len() && j != i ==> !covers(#[trigger] blocks[j], c, kk),
        has_cell(cells_of(blocks), c, kk),
        cell_find(cells_of(blocks), c, kk) == (CellView {
            client: c,
            clock: kk,
            ch: blocks[i].content[kk - blocks[i].id.clock],
            deleted: blocks[i].deleted,
        }),
{
    assert forall|j: int|
        0 <= j < blocks.len() && j != i implies !covers(#[trigger] blocks[j], c, kk) by {
        if covers(blocks[j], c, kk) {
            assert(blocks[j].id.client == blocks[i].id.client);
        }
    }
    lemma_cell_find_unique(blocks, i, c, kk);
}

/// Folding in a remote block that this replica already knows: only its
/// tombstone flag can spread.
proof fn lemma_merge_found_step(
    prior: Text,
    before: Text,
    cur: Text,
    absorbed: Seq<CellView>,
    o: BlockView,
    i: int,
)
    requires
        merge_prefix_effect(prior, absorbed, before),
        blocks_wf(before.blocks()),
        blocks_wf(cur.blocks()),
        cur.blocks().len() == before.blocks().len(),
        forall|k: int|
            0 <= k < cur.blocks().len() && k != i ==> #[trigger] cur.blocks()[k]
                == before.blocks()[k],
        0 <= i < before.blocks().len(),
        before.blocks()[i].id == o.id,
        before.blocks()[i].content == o.content,
        cur.blocks()[i].id == o.id,
        cur.blocks()[i].content == o.content,
        cur.blocks()[i].deleted == (before.blocks()[i].deleted || o.deleted),
        forall|c: u64, kk: int| covers(o, c, kk) ==> !has_cell(absorbed, c, kk),
    ensures
        merge_prefix_effect(prior, absorbed + block_cells(o), cur),
{
    let pb = before.blocks();
    let nb = cur.blocks();
    let absorbed1 = absorbed + block_cells(o);
    assert forall|c: u64, kk: int| #[trigger] has_cell(cur.cells(), c, kk) <==> (has_cell(
        prior.cells(),
        c,
        kk,
    ) || has_cell(absorbed1, c, kk)) by {
        lemma_cell_cover(nb, c, kk);
        lemma_cell_cover(pb, c, kk);
        lemma_cell_find_concat(absorbed, block_cells(o), c, kk);
        lemma_block_cells_find(o, c, kk);
        assert(has_cell(before.cells(), c, kk) <==> (has_cell(prior.cells(), c, kk) || has_cell(
            absorbed,
            c,
            kk,
        )));
        if has_cell(cur.cells(), c, kk) {
            let j = choose|j: int| 0 <= j < nb.len() && covers(#[trigger] nb[j], c, kk);
            if j == i {
                assert(covers(pb[i], c, kk));
            } else {
                assert(covers(pb[j], c, kk));
            }
            assert(has_cell(before.cells(), c, kk));
        }
        if has_cell(before.cells(), c, kk) {
            let j = choose|j: int| 0 <= j < pb.len() && covers(#[trigger] pb[j], c, kk);
            if j == i {
                assert(covers(nb[i], c, kk));
            } else {
                assert(covers(nb[j], c, kk));
            }
            assert(has_cell(cur.cells(), c, kk));
        }
        if covers(o, c, kk) {
            assert(covers(nb[i], c, kk));
            assert(has_cell(cur.cells(), c, kk));
        }
    }
    assert forall|c: u64, kk: int| has_cell(prior.cells(), c, kk) implies #[trigger] cell_find(
        cur.cells(),
        c,
        kk,
    ).ch == cell_find(prior.cells(), c, kk).ch by {
        assert(has_cell(before.cells(), c, kk));
        lemma_cell_cover(pb, c, kk);
        let j = choose|j: int| 0 <= j < pb.len() && covers(#[trigger] pb[j], c, kk);
        lemma_cover_unique(pb, j, c, kk);
        lemma_cover_unique(nb, j, c, kk);
        assert(cell_find(before.cells(), c, kk).ch == cell_find(prior.cells(), c, kk).ch);
    }
    assert forall|c: u64, kk: int|
        !has_cell(prior.cells(), c, kk) && has_cell(absorbed1, c, kk) implies #[trigger] cell_find(
        cur.cells(),
        c,
        kk,
    ).ch == cell_find(absorbed1, c, kk).ch by {
        lemma_cell_find_concat(absorbed, block_cells(o), c, kk);
        lemma_block_cells_find(o, c, kk);
        if has_cell(absorbed, c, kk) {
            assert(has_cell(before.cells(), c, kk));
            lemma_cell_cover(pb, c, kk);
            let j = choose|j: int| 0 <= j < pb.len() && covers(#[trigger] pb[j], c, kk);
            lemma_cover_unique(pb, j, c, kk);
            lemma_cover_unique(nb, j, c, kk);
            assert(cell_find(before.cells(), c, kk).ch == cell_find(absorbed, c, kk).ch);
        } else {
            assert(covers(o, c, kk));
            lemma_cover_unique(nb, i, c, kk);
        }
    }
    assert forall|c: u64, kk: int| #[trigger] has_cell(cur.cells(), c, kk) implies (cell_find(
        cur.cells(),
        c,
        kk,
    ).deleted <==> ((has_cell(prior.cells(), c, kk) && cell_find(prior.cells(), c, kk).deleted)
        || (has_cell(absorbed1, c, kk) && cell_find(absorbed1, c, kk).deleted))) by {
        lemma_cell_cover(nb, c, kk);
        lemma_cell_find_concat(absorbed, block_cells(o), c, kk);
        lemma_block_cells_find(o, c, kk);
        let j = choose|j: int| 0 <= j < nb.len() && covers(#[trigger] nb[j], c, kk);
        lemma_cover_unique(nb, j, c, kk);
        if j == i {
            assert(covers(pb[i], c, kk));
            lemma_cover_unique(pb, i, c, kk);
            assert(has_cell(before.cells(), c, kk));
            assert(cell_find(before.cells(), c, kk).deleted == pb[i].deleted);
            if covers(o, c, kk) {
                assert(!has_cell(absorbed, c, kk));
            }
            assert(covers(o, c, kk));
        } else {
            assert(covers(pb[j], c, kk));
            lemma_cover_unique(pb, j, c, kk);
            assert(has_cell(before.cells(), c, kk));
            assert(cell_find(cur.cells(), c, kk) == cell_find(before.cells(), c, kk));
            assert(!covers(o, c, kk)) by {
                if covers(o, c, kk) {
                    assert(covers(nb[i], c, kk));
                }
            }
        }
    }
}

/// Adopting a remote block this replica has never seen: its characters
/// arrive exactly as the remote side carries them.
proof fn lemma_merge_fresh_step(
    prior: Text,
    before: Text,
    cur: Text,
    absorbed: Seq<CellView>,
    o: BlockView,
    pb: Seq<BlockView>,
    k: int,
)
    requires
        merge_prefix_effect(prior, absorbed, before),
        pb == before.blocks(),
        blocks_wf(pb),
        0 <= k <= pb.len(),
        cur.blocks() == pb.insert(k, o),
        o.content.len() >= 1,
        forall|c: u64, kk: int|
            covers(o, c, kk) ==> !has_cell(before.cells(), c, kk) && !has_cell(absorbed, c, kk),
    ensures
        merge_prefix_effect(prior, absorbed + block_cells(o), cur),
{
    let nb = cur.blocks();
    let absorbed1 = absorbed + block_cells(o);
    assert(pb =~= pb.take(k) + pb.skip(k));
    lemma_blocks_concat(pb.take(k), pb.skip(k));
    assert(nb =~= pb.take(k) + (seq![o] + pb.skip(k)));
    lemma_blocks_concat(pb.take(k), seq![o] + pb.skip(k));
    lemma_blocks_concat(seq![o], pb.skip(k));
    assert(cells_of(seq![o]) =~= block_cells(o)) by {
        assert(seq![o].drop_last() =~= Seq::<BlockView>::empty());
        assert(cells_of(Seq::<BlockView>::empty()) =~= Seq::<CellView>::empty());
    }
    assert(cells_of(nb) =~= cells_of(pb.take(k)) + (block_cells(o) + cells_of(pb.skip(k))));
    assert(cells_of(pb) =~= cells_of(pb.take(k)) + cells_of(pb.skip(k)));
    assert forall|c: u64, kk: int| #[trigger] has_cell(cur.cells(), c, kk) <==> (has_cell(
        prior.cells(),
        c,
        kk,
    ) || has_cell(absorbed1, c, kk)) by {
        lemma_cell_find_concat(cells_of(pb.take(k)), block_cells(o) + cells_of(pb.skip(k)), c, kk);
        lemma_cell_find_concat(block_cells(o), cells_of(pb.skip(k)), c, kk);
        lemma_cell_find_concat(cells_of(pb.take(k)), cells_of(pb.skip(k)), c, kk);
        lemma_cell_find_concat(absorbed, block_cells(o), c, kk);
        lemma_block_cells_find(o, c, kk);
        assert(has_cell(before.cells(), c, kk) <==> (has_cell(prior.cells(), c, kk) || has_cell(
            absorbed,
            c,
            kk,
        )));
    }
    assert forall|c: u64, kk: int| has_cell(prior.cells(), c, kk) implies #[trigger] cell_find(
        cur.cells(),
        c,
        kk,
    ).ch == cell_find(prior.cells(), c, kk).ch by {
        lemma_cell_find_concat(cells_of(pb.take(k)), block_cells(o) + cells_of(pb.skip(k)), c, kk);
        lemma_cell_find_concat(block_cells(o), cells_of(pb.skip(k)), c, kk);
        lemma_cell_find_concat(cells_of(pb.take(k)), cells_of(pb.skip(k)), c, kk);
        lemma_block_cells_find(o, c, kk);
        assert(has_cell(before.cells(), c, kk));
        assert(!covers(o, c, kk));
        assert(cell_find(cur.cells(), c, kk) == cell_find(before.cells(), c, kk));
        assert(cell_find(before.cells(), c, kk).ch == cell_find(prior.cells(), c, kk).ch);
    }
    assert forall|c: u64, kk: int|
        !has_cell(prior.cells(), c, kk) && has_cell(absorbed1, c, kk) implies #[trigger] cell_find(
        cur.cells(),
        c,
        kk,
    ).ch == cell_find(absorbed1, c, kk).ch by {
        lemma_cell_find_concat(cells_of(pb.take(k)), block_cells(o) + cells_of(pb.skip(k)), c, kk);
        lemma_cell_find_concat(block_cells(o), cells_of(pb.skip(k)), c, kk);
        lemma_cell_find_concat(cells_of(pb.take(k)), cells_of(pb.skip(k)), c, kk);
        lemma_cell_find_concat(absorbed, block_cells(o), c, kk);
        lemma_block_cells_find(o, c, kk);
        if has_cell(absorbed, c, kk) {
            assert(has_cell(before.cells(), c, kk));
            assert(!covers(o, c, kk));
            assert(cell_find(cur.cells(), c, kk) == cell_find(before.cells(), c, kk));
            assert(cell_find(before.cells(), c, kk).ch == cell_find(absorbed, c, kk).ch);
        } else {
            assert(covers(o, c, kk));
            assert(!has_cell(before.cells(), c, kk));
            assert(!has_cell(cells_of(pb.take(k)), c, kk));
            assert(cell_find(cur.cells(), c, kk) == cell_find(block_cells(o), c, kk));
        }
    }
    assert forall|c: u64, kk: int| #[trigger] has_cell(cur.cells(), c, kk) implies (cell_find(
        cur.cells(),
        c,
        kk,
    ).deleted <==> ((has_cell(prior.cells(), c, kk) && cell_find(prior.cells(), c, kk).deleted)
        || (has_cell(absorbed1, c, kk) && cell_find(absorbed1, c, kk).deleted))) by {
        lemma_cell_find_concat(cells_of(pb.take(k)), block_cells(o) + cells_of(pb.skip(k)), c, kk);
        lemma_cell_find_concat(block_cells(o), cells_of(pb.skip(k)), c, kk);
        lemma_cell_find_concat(cells_of(pb.take(k)), cells_of(pb.skip(k)), c, kk);
        lemma_cell_find_concat(absorbed, block_cells(o), c, kk);
        lemma_block_cells_find(o, c, kk);
        if covers(o, c, kk) {
            assert(!has_cell(before.cells(), c, kk));
            assert(!has_cell(cells_of(pb.take(k)), c, kk));
            assert(cell_find(cur.cells(), c, kk) == cell_find(block_cells(o), c, kk));
            assert(!has_cell(prior.cells(), c, kk));
            assert(!has_cell(absorbed, c, kk));
        } else {
            assert(has_cell(before.cells(), c, kk));
            assert(cell_find(cur.cells(), c, kk) == cell_find(before.cells(), c, kk));
        }
    }
}

/// The merge outcome carries over to a compacted state with the same cells
/// and an advanced counter.
proof fn lemma_merge_effect_transfer(prior: Text, other: Text, grown: Text, cur: Text)
    requires
        merge_prefix_effect(prior, cells_of(other.blocks()), grown),
        cur.cells() == grown.cells(),
    ensures
        merge_effect(prior, other, cur),
{
    assert forall|c: u64, kk: int| #[trigger] has_cell(cur.cells(), c, kk) <==> (has_cell(
        prior.cells(),
        c,
        kk,
    ) || has_cell(other.cells(), c, kk)) by {
        assert(has_cell(grown.cells(), c, kk) <==> (has_cell(prior.cells(), c, kk) || has_cell(
            cells_of(other.blocks()),
            c,
            kk,
        )));
    }
    assert forall|c: u64, kk: int| has_cell(prior.cells(), c, kk) implies #[trigger] cell_find(
        cur.cells(),
        c,
        kk,
    ).ch == cell_find(prior.cells(), c, kk).ch by {
        assert(cell_find(grown.cells(), c, kk).ch == cell_find(prior.cells(), c, kk).ch);
    }
    assert forall|c: u64, kk: int|
        !has_cell(prior.cells(), c, kk) && has_cell(other.cells(), c, kk) implies #[trigger]
    cell_find(cur.cells(), c, kk).ch == cell_find(other.cells(), c, kk).ch by {
        assert(has_cell(cells_of(other.blocks()), c, kk));
        assert(cell_find(grown.cells(), c, kk).ch == cell_find(cells_of(other.blocks()), c, kk).ch);
    }
    assert forall|c: u64, kk: int| #[trigger] has_cell(cur.cells(), c, kk) implies (cell_find(
        cur.cells(),
        c,
        kk,
    ).deleted <==> ((has_cell(prior.cells(), c, kk) && cell_find(prior.cells(), c, kk).deleted)
        || (has_cell(other.cells(), c, kk) && cell_find(other.cells(), c, kk).deleted))) by {
        assert(has_cell(grown.cells(), c, kk));
        assert(cell_find(grown.cells(), c, kk).deleted <==> ((has_cell(prior.cells(), c, kk)
            && cell_find(prior.cells(), c, kk).deleted) || (has_cell(
            cells_of(other.blocks()),
            c,
            kk,
        ) && cell_find(cells_of(other.blocks()), c, kk).deleted)));
    }
}

/// Merging a text with itself changes nothing observable: the same
/// characters, with the same contents and tombstone flags (idempotence).
pub proof fn lemma_text_merge_idempotent(a: Text, aa: Text)
    requires
        merge_effect(a, a, aa),
    ensures
        forall|c: u64, kk: int| #[trigger]
            has_cell(aa.cells(), c, kk) <==> has_cell(a.cells(), c, kk),
        forall|c: u64, kk: int| #[trigger]
            has_cell(a.cells(), c, kk) ==> cell_find(aa.cells(), c, kk).ch == cell_find(
                a.cells(),
                c,
                kk,
            ).ch && (cell_find(aa.cells(), c, kk).deleted <==> cell_find(
                a.cells(),
                c,
                kk,
            ).deleted),
{
    assert forall|c: u64, kk: int| #[trigger] has_cell(a.cells(), c, kk) implies cell_find(
        aa.cells(),
        c,
        kk,
    ).ch == cell_find(a.cells(), c, kk).ch && (cell_find(aa.cells(), c, kk).deleted <==> cell_find(
        a.cells(),
        c,
        kk,
    ).deleted) by {
        assert(has_cell(aa.cells(), c, kk));
    }
}

/// Merging is observably commutative at the cell level: merging either way
/// round yields the same characters with the same contents and flags,
/// provided shared characters carry the same character on both sides — true
/// between genuine replicas, where a character identity is written once.
pub proof fn lemma_text_merge_commutative(a: Text, b: Text, ab: Text, ba: Text)
    requires
        merge_effect(a, b, ab),
        merge_effect(b, a, ba),
        forall|c: u64, kk: int|
            has_cell(a.cells(), c, kk) && #[trigger] has_cell(b.cells(), c, kk) ==> cell_find(
                a.cells(),
                c,
                kk,
            ).ch == cell_find(b.cells(), c, kk).ch,
    ensures
        forall|c: u64, kk: int| #[trigger]
            has_cell(ab.cells(), c, kk) <==> has_cell(ba.cells(), c, kk),
        forall|c: u64, kk: int| #[trigger]
            has_cell(ab.cells(), c, kk) ==> cell_find(ab.cells(), c, kk).ch == cell_find(
                ba.cells(),
                c,
                kk,
            ).ch && (cell_find(ab.cells(), c, kk).deleted <==> cell_find(
                ba.cells(),
                c,
                kk,
            ).deleted),
{
    assert forall|c: u64, kk: int| #[trigger] has_cell(ab.cells(), c, kk) implies cell_find(
        ab.cells(),
        c,
        kk,
    ).ch == cell_find(ba.cells(), c, kk).ch && (cell_find(ab.cells(), c, kk).deleted <==> cell_find(
        ba.cells(),
        c,
        kk,
    ).deleted) by {
        assert(has_cell(ba.cells(), c, kk));
        if has_cell(a.cells(), c, kk) {
            assert(cell_find(ab.cells(), c, kk).ch == cell_find(a.cells(), c, kk).ch);
            if has_cell(b.cells(), c, kk) {
                assert(cell_find(ba.cells(), c, kk).ch == cell_find(b.cells(), c, kk).ch);
            } else {
                assert(cell_find(ba.cells(), c, kk).ch == cell_find(a.cells(), c, kk).ch);
            }
        } else {
            assert(has_cell(b.cells(), c, kk));
            assert(cell_find(ab.cells(), c, kk).ch == cell_find(b.cells(), c, kk).ch);
            assert(cell_find(ba.cells(), c, kk).ch == cell_find(b.cells(), c, kk).ch);
        }
    }
}

/// Merging is observably associative at the cell level: absorbing `b` and
/// then `c` yields the same characters, contents and flags as absorbing
/// their merge.
#[verifier::spinoff_prover]
#[verifier::rlimit(100)]
pub proof fn lemma_text_merge_associative(
    a: Text,
    b: Text,
    c: Text,
    ab: Text,
    abc: Text,
    bc: Text,
    abc2: Text,
)
    requires
        merge_effect(a, b, ab),
        merge_effect(ab, c, abc),
        merge_effect(b, c, bc),
        merge_effect(a, bc, abc2),
    ensures
        forall|cl: u64, kk: int| #[trigger]
            has_cell(abc.cells(), cl, kk) <==> has_cell(abc2.cells(), cl, kk),
        forall|cl: u64, kk: int| #[trigger]
            has_cell(abc.cells(), cl, kk) ==> cell_find(abc.cells(), cl, kk).ch == cell_find(
                abc2.cells(),
                cl,
                kk,
            ).ch && (cell_find(abc.cells(), cl, kk).deleted <==> cell_find(
                abc2.cells(),
                cl,
                kk,
            ).deleted),
{
    assert forall|cl: u64, kk: int| #[trigger] has_cell(abc.cells(), cl, kk) implies cell_find(
        abc.cells(),
        cl,
        kk,
    ).ch == cell_find(abc2.cells(), cl, kk).ch && (cell_find(abc.cells(), cl, kk).deleted
        <==> cell_find(abc2.cells(), cl, kk).deleted) by {
        assert(has_cell(abc2.cells(), cl, kk));
        if has_cell(a.cells(), cl, kk) {
            assert(has_cell(ab.cells(), cl, kk));
            assert(cell_find(ab.cells(), cl, kk).ch == cell_find(a.cells(), cl, kk).ch);
            assert(cell_find(abc.cells(), cl, kk).ch == cell_find(ab.cells(), cl, kk).ch);
            assert(cell_find(abc2.cells(), cl, kk).ch == cell_find(a.cells(), cl, kk).ch);
        } else if has_cell(b.cells(), cl, kk) {
            assert(has_cell(ab.cells(), cl, kk));
            assert(cell_find(ab.cells(), cl, kk).ch == cell_find(b.cells(), cl, kk).ch);
            assert(cell_find(abc.cells(), cl, kk).ch == cell_find(ab.cells(), cl, kk).ch);
            assert(has_cell(bc.cells(), cl, kk));
            assert(cell_find(bc.cells(), cl, kk).ch == cell_find(b.cells(), cl, kk).ch);
            assert(cell_find(abc2.cells(), cl, kk).ch == cell_find(bc.cells(), cl, kk).ch);
        } else {
            assert(has_cell(c.cells(), cl, kk));
            assert(!has_cell(ab.cells(), cl, kk));
            assert(cell_find(abc.cells(), cl, kk).ch == cell_find(c.cells(), cl, kk).ch);
            assert(has_cell(bc.cells(), cl, kk));
            assert(cell_find(bc.cells(), cl, kk).ch == cell_find(c.cells(), cl, kk).ch);
            assert(cell_find(abc2.cells(), cl, kk).ch == cell_find(bc.cells(), cl, kk).ch);
        }
        // Tombstones: the two groupings take the same disjunction.
        assert(cell_find(abc.cells(), cl, kk).deleted <==> ((has_cell(ab.cells(), cl, kk)
            && cell_find(ab.cells(), cl, kk).deleted) || (has_cell(c.cells(), cl, kk)
            && cell_find(c.cells(), cl, kk).deleted)));
        if has_cell(ab.cells(), cl, kk) {
            assert(cell_find(ab.cells(), cl, kk).deleted <==> ((has_cell(a.cells(), cl, kk)
                && cell_find(a.cells(), cl, kk).deleted) || (has_cell(b.cells(), cl, kk)
                && cell_find(b.cells(), cl, kk).deleted)));
        }
        assert(cell_find(abc2.cells(), cl, kk).deleted <==> ((has_cell(a.cells(), cl, kk)
            && cell_find(a.cells(), cl, kk).deleted) || (has_cell(bc.cells(), cl, kk)
            && cell_find(bc.cells(), cl, kk).deleted)));
        if has_cell(bc.cells(), cl, kk) {
            assert(cell_find(bc.cells(), cl, kk).deleted <==> ((has_cell(b.cells(), cl, kk)
                && cell_find(b.cells(), cl, kk).deleted) || (has_cell(c.cells(), cl, kk)
                && cell_find(c.cells(), cl, kk).deleted)));
        }
    }
}

/// Block lists with pointwise equal content lengths have equally many
/// cells; tombstone flags play no part in the count.
pub proof fn lemma_cells_len_same(a: Seq<BlockView>, b: Seq<BlockView>)
    requires
        a.len() == b.len(),
        forall|i: int| 0 <= i < a.len() ==> (#[trigger] a[i]).content.len() == b[i].content.len(),
    ensures
        cells_of(a).len() == cells_of(b).len(),
    decreases a.len(),
{
    if a.len() > 0 {
        assert(forall|i: int|
            0 <= i < a.drop_last().len() ==> (#[trigger] a.drop_last()[i]).content.len()
                == b.drop_last()[i].content.len());
        lemma_cells_len_same(a.drop_last(), b.drop_last());
    }
}

/// Two optional item identifiers are the same.
fn opt_id_eq(a: Option<ItemId>, b: Option<ItemId>) -> (r: bool)
    ensures
        r == (a == b),
{
    match (a, b) {
        (Option::None, Option::None) => true,
        (Option::Some(x), Option::Some(y)) => x == y,
        _ => false,
    }
}

/// The exec order on item identifiers.
fn id_less(a: ItemId, b: ItemId) -> (r: bool)
    ensures
        r == id_lt(a, b),
{
    a.client < b.client || (a.client == b.client && a.clock < b.clock)
}

/// Whether block `b` carries the character `(c, kk)`.
pub open spec fn covers(b: BlockView, c: u64, kk: int) -> bool {
    b.id.client == c && b.id.clock <= kk < b.id.clock + b.content.len()
}

/// A character is a cell of the list exactly when some block carries it.
pub proof fn lemma_cell_cover(blocks: Seq<BlockView>, c: u64, kk: int)
    ensures
        has_cell(cells_of(blocks), c, kk) <==> exists|i: int|
            0 <= i < blocks.len() && covers(#[trigger] blocks[i], c, kk),
    decreases blocks.len(),
{
    if blocks.len() == 0 {
    } else {
        lemma_cell_cover(blocks.drop_last(), c, kk);
        lemma_cell_find_concat(cells_of(blocks.drop_last()), block_cells(blocks.last()), c, kk);
        lemma_block_cells_find(blocks.last(), c, kk);
        if has_cell(cells_of(blocks), c, kk) {
            if has_cell(cells_of(blocks.drop_last()), c, kk) {
                let i = choose|i: int|
                    0 <= i < blocks.drop_last().len() && covers(
                        #[trigger] blocks.drop_last()[i],
                        c,
                        kk,
                    );
                assert(covers(blocks[i], c, kk));
            } else {
                assert(covers(blocks[blocks.len() - 1], c, kk));
            }
        }
        if exists|i: int| 0 <= i < blocks.len() && covers(#[trigger] blocks[i], c, kk) {
            let i = choose|i: int| 0 <= i < blocks.len() && covers(#[trigger] blocks[i], c, kk);
            if i < blocks.len() - 1 {
                assert(covers(blocks.drop_last()[i], c, kk));
            }
        }
    }
}

/// When exactly one block carries a character, that block decides the cell.
pub proof fn lemma_cell_find_unique(blocks: Seq<BlockView>, i: int, c: u64, kk: int)
    requires
        0 <= i < blocks.len(),
        covers(blocks[i], c, kk),
        forall|j: int| 0 <= j < blocks.len() && j != i ==> !covers(#[trigger] blocks[j], c, kk),
    ensures
        has_cell(cells_of(blocks), c, kk),
        cell_find(cells_of(blocks), c, kk) == (CellView {
            client: c,
            clock: kk,
            ch: blocks[i].content[kk - blocks[i].id.clock],
            deleted: blocks[i].deleted,
        }),
    decreases blocks.len(),
{
    lemma_cell_cover(blocks, c, kk);
    lemma_cell_find_concat(cells_of(blocks.drop_last()), block_cells(blocks.last()), c, kk);
    lemma_block_cells_find(blocks.last(), c, kk);
    if i == blocks.len() - 1 {
        assert(!has_cell(cells_of(blocks.drop_last()), c, kk)) by {
            lemma_cell_cover(blocks.drop_last(), c, kk);
            if has_cell(cells_of(blocks.drop_last()), c, kk) {
                let j = choose|j: int|
                    0 <= j < blocks.drop_last().len() && covers(
                        #[trigger] blocks.drop_last()[j],
                        c,
                        kk,
                    );
                assert(covers(blocks[j], c, kk));
            }
        }
        assert(cell_find(cells_of(blocks), c, kk) == cell_find(
            block_cells(blocks.last()),
            c,
            kk,
        ));
    } else {
        assert(forall|j: int|
            0 <= j < blocks.drop_last().len() && j != i ==> !covers(
                #[trigger] blocks.drop_last()[j],
                c,
                kk,
            ));
        assert(blocks.drop_last()[i] == blocks[i]);
        lemma_cell_find_unique(blocks.drop_last(), i, c, kk);
        assert(cell_find(cells_of(blocks), c, kk) == cell_find(
            cells_of(blocks.drop_last()),
            c,
            kk,
        ));
    }
}

/// The rendered prefix never outgrows the cell count: each visible
/// character is a cell.
pub proof fn lemma_render_le_cells(blocks: Seq<BlockView>, t: int)
    requires
        0 <= t <= blocks.len(),
    ensures
        render_blocks(blocks.take(t)).len() <= cells_of(blocks).len(),
    decreases blocks.len() - t,
{
    lemma_render_le_cells_full(blocks.take(t));
    lemma_cells_prefix(blocks, t);
}

/// Rendering never outgrows the cells.
proof fn lemma_render_le_cells_full(blocks: Seq<BlockView>)
    ensures
        render_blocks(blocks).len() <= cells_of(blocks).len(),
    decreases blocks.len(),
{
    if blocks.len() > 0 {
        lemma_render_le_cells_full(blocks.drop_last());
    }
}

/// A prefix has no more cells than the whole.
proof fn lemma_cells_prefix(blocks: Seq<BlockView>, t: int)
    requires
        0 <= t <= blocks.len(),
    ensures
        cells_of(blocks.take(t)).len() <= cells_of(blocks).len(),
{
    assert(blocks =~= blocks.take(t) + blocks.skip(t));
    lemma_blocks_concat(blocks.take(t), blocks.skip(t));
}

} // verus!
