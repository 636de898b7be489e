//! The stored blocks, and which of them make up the main chain.
use crate::block::{BlockNumber, BlockView, IndexedBlock, IndexedHeader};
use crate::difficulty::U256;
use crate::hash::H256;
use crate::table::HashTable;
use vstd::prelude::*;

verus! {

/// What is stored of a block.
pub struct ChainEntry {
    pub header: IndexedHeader,
    /// The work of the chain that ends in the block.
    pub total_difficulty: Option<U256>,
    /// The root over the outputs that exist after the block.
    pub output_root: Option<H256>,
    /// The encoded uncles and transactions.
    pub body: Option<Vec<u8>>,
}

/// What an entry holds.
#[verifier::ext_equal]
pub struct EntryView {
    pub header: IndexedHeader,
    pub total_difficulty: Option<U256>,
    pub output_root: Option<H256>,
    pub body: Option<Seq<u8>>,
}

impl View for ChainEntry {
    type V = EntryView;

    open spec fn view(&self) -> EntryView {
        EntryView {
            header: self.header,
            total_difficulty: self.total_difficulty,
            output_root: self.output_root,
            body: match self.body {
                Some(body) => Some(body@),
                None => None,
            },
        }
    }
}

/// The last header of the main chain and the work behind it.
#[derive(Clone, Copy, Debug)]
pub struct TipHeader {
    pub header: IndexedHeader,
    pub total_difficulty: U256,
}

/// Why a block cannot be stored.
#[derive(Clone, Copy, Debug, PartialEq, Eq, Structural)]
pub enum ChainError {
    /// The block's parent is not stored.
    UnknownParent,
    /// The block's number does not follow its parent's.
    WrongNumber,
}

/// The stored blocks by hash, the hashes of the main chain by number, and the work behind the
/// main chain.
#[verifier::ext_equal]
pub struct ChainView {
    pub entries: Map<H256, EntryView>,
    pub main: Seq<H256>,
    pub tip_difficulty: U256,
}

/// The hashes from the genesis block up to the block `hash`, by number.
pub open spec fn lineage(entries: Map<H256, EntryView>, hash: H256) -> Seq<H256>
    decreases entries[hash].header.number,
{
    let header = entries[hash].header;
    if header.number > 0 && entries.contains_key(header.parent_hash)
        && entries[header.parent_hash].header.number < header.number {
        lineage(entries, header.parent_hash).push(hash)
    } else {
        seq![hash]
    }
}

impl ChainView {
    /// The block is filed under its hash, and follows a stored parent or is the genesis block.
    pub open spec fn is_placed(self, hash: H256) -> bool {
        let header = self.entries[hash].header;
        &&& header.hash == hash
        &&& header.number == 0 ==> hash == self.main[0]
        &&& header.number > 0 ==> self.entries.contains_key(header.parent_hash)
            && self.entries[header.parent_hash].header.number + 1 == header.number
    }

    /// Every stored block has its place.
    pub open spec fn is_tree(self) -> bool {
        forall|hash: H256|
            self.entries.contains_key(hash) ==> #[trigger] self.is_placed(hash)
    }

    /// The main chain starts at the genesis block, and each of its blocks is the parent of the
    /// next.
    pub open spec fn main_is_linked(self) -> bool {
        &&& self.main.len() > 0
        &&& forall|n: int|
            0 <= n < self.main.len() ==> self.entries.contains_key(#[trigger] self.main[n])
                && self.entries[self.main[n]].header.number == n
        &&& forall|m: int, n: int|
            0 <= m && n == m + 1 && n < self.main.len() ==> self.entries[
            #[trigger] self.main[n]].header.parent_hash == #[trigger] self.main[m]
    }

    pub open spec fn wf(self) -> bool {
        &&& self.is_tree()
        &&& self.main_is_linked()
    }

    pub open spec fn genesis(self) -> H256 {
        self.main[0]
    }

    pub open spec fn tip(self) -> IndexedHeader {
        self.entries[self.main.last()].header
    }

    /// The header stored under `hash`.
    pub open spec fn header(self, hash: H256) -> Option<IndexedHeader> {
        if self.entries.contains_key(hash) {
            Some(self.entries[hash].header)
        } else {
            None
        }
    }

    /// The block is stored and on the main chain.
    pub open spec fn on_main(self, hash: H256) -> bool {
        self.main.contains(hash)
    }

    /// The number of the block on the main chain.
    pub open spec fn number_of(self, hash: H256) -> Option<BlockNumber> {
        if self.on_main(hash) {
            Some(self.entries[hash].header.number)
        } else {
            None
        }
    }

    /// The outputs that exist after the block are known.
    pub open spec fn has_outputs(self, hash: H256) -> bool {
        self.entries.contains_key(hash) && self.entries[hash].output_root is Some
    }

    /// The block can be stored on top of its parent, if it is not stored yet.
    pub open spec fn extends(self, header: IndexedHeader) -> bool {
        self.entries.contains_key(header.parent_hash)
            && self.entries[header.parent_hash].header.number + 1 == header.number
    }

    /// The chain with one more block, which becomes the tip if `new_tip` says so.
    pub open spec fn with_block(
        self,
        block: BlockView,
        total_difficulty: U256,
        output_root: H256,
        new_tip: bool,
    ) -> ChainView {
        let hash = block.header.hash;
        let entries = self.entries.insert(
            hash,
            EntryView {
                header: block.header,
                total_difficulty: Some(total_difficulty),
                output_root: Some(output_root),
                body: Some(block.body),
            },
        );
        if new_tip {
            ChainView {
                entries,
                main: lineage(entries, hash),
                tip_difficulty: total_difficulty,
            }
        } else {
            ChainView { entries, main: self.main, tip_difficulty: self.tip_difficulty }
        }
    }
}

/// In a well-formed chain the lineage of a stored block is linked from the genesis block up.
pub proof fn lemma_lineage(chain: ChainView, hash: H256)
    requires
        chain.is_tree(),
        chain.entries.contains_key(hash),
    ensures
        ({
            let l = lineage(chain.entries, hash);
            &&& l.len() == chain.entries[hash].header.number + 1
            &&& l.last() == hash
            &&& l[0] == chain.main[0]
            &&& forall|n: int|
                0 <= n < l.len() ==> chain.entries.contains_key(#[trigger] l[n])
                    && chain.entries[l[n]].header.number == n
            &&& forall|m: int, n: int|
                0 <= m && n == m + 1 && n < l.len() ==> chain.entries[
                #[trigger] l[n]].header.parent_hash == #[trigger] l[m]
        }),
    decreases chain.entries[hash].header.number,
{
    let header = chain.entries[hash].header;
    assert(chain.is_placed(hash));
    if header.number > 0 {
        lemma_lineage(chain, header.parent_hash);
        let up = lineage(chain.entries, header.parent_hash);
        let l = lineage(chain.entries, hash);
        assert(l == up.push(hash));
    }
}

/// In a well-formed chain the main chain up to a number is the lineage of the block there.
pub proof fn lemma_main_is_lineage(chain: ChainView, n: int)
    requires
        chain.wf(),
        0 <= n < chain.main.len(),
    ensures
        lineage(chain.entries, chain.main[n]) == chain.main.take(n + 1),
    decreases n,
{
    let hash = chain.main[n];
    if n > 0 {
        lemma_main_is_lineage(chain, n - 1);
        assert(chain.entries[hash].header.parent_hash == chain.main[n - 1]);
        assert(chain.main.take(n + 1) =~= chain.main.take(n).push(hash));
    } else {
        assert(chain.main.take(1) =~= seq![hash]);
    }
}

/// A block is on the main chain exactly where the main chain holds it at its own number.
pub proof fn lemma_on_main(chain: ChainView, hash: H256)
    requires
        chain.wf(),
    ensures
        chain.on_main(hash) <==> chain.entries.contains_key(hash)
            && chain.entries[hash].header.number < chain.main.len()
            && chain.main[chain.entries[hash].header.number as int] == hash,
{
    if chain.on_main(hash) {
        let n: int = choose|n: int| 0 <= n < chain.main.len() && chain.main[n] == hash;
        assert(chain.entries[chain.main[n]].header.number == n);
    }
}

/// Storing a further block on a known parent keeps the tree, and the lineage of every block
/// that was stored before.
proof fn lemma_insert_keeps_tree(chain: ChainView, entry: EntryView)
    requires
        chain.wf(),
        !chain.entries.contains_key(entry.header.hash),
        chain.extends(entry.header),
    ensures
        ({
            let after = ChainView {
                entries: chain.entries.insert(entry.header.hash, entry),
                ..chain
            };
            after.wf()
        }),
{
    let after = ChainView { entries: chain.entries.insert(entry.header.hash, entry), ..chain };
    assert forall|hash: H256| after.entries.contains_key(hash) implies
        #[trigger] after.is_placed(hash) by {
        if hash != entry.header.hash {
            assert(chain.is_placed(hash));
        }
    }
    assert forall|n: int| 0 <= n < after.main.len() implies after.entries.contains_key(
        #[trigger] after.main[n],
    ) && after.entries[after.main[n]].header.number == n by {
        assert(chain.entries.contains_key(chain.main[n]));
    }
    assert forall|m: int, n: int|
        0 <= m && n == m + 1 && n < after.main.len() implies after.entries[
    #[trigger] after.main[n]].header.parent_hash == #[trigger] after.main[m] by {
        assert(chain.entries.contains_key(chain.main[n]));
    }
}

/// Storing a block on a known parent keeps the chain well formed, whether or not the block
/// becomes the tip.
pub proof fn law_storing_keeps_chain(
    chain: ChainView,
    block: BlockView,
    total_difficulty: U256,
    output_root: H256,
    new_tip: bool,
)
    requires
        chain.wf(),
        !chain.entries.contains_key(block.header.hash),
        chain.extends(block.header),
    ensures
        ({
            let after = chain.with_block(block, total_difficulty, output_root, new_tip);
            &&& after.wf()
            &&& after.genesis() == chain.genesis()
            &&& new_tip ==> after.tip() == block.header
            &&& !new_tip ==> after.tip() == chain.tip()
        }),
{
    let after = chain.with_block(block, total_difficulty, output_root, new_tip);
    let entry = after.entries[block.header.hash];
    lemma_insert_keeps_tree(chain, entry);
    let grown = ChainView { entries: after.entries, ..chain };
    assert(grown.wf());
    if new_tip {
        lemma_lineage(grown, block.header.hash);
        assert forall|hash: H256| after.entries.contains_key(hash) implies
            #[trigger] after.is_placed(hash) by {
            assert(grown.is_placed(hash));
        }
    } else {
        assert(chain.entries.contains_key(chain.main.last()));
    }
}

/// The stored blocks and the hash of the tip determine the whole main chain.
pub proof fn law_tip_determines_main(a: ChainView, b: ChainView)
    requires
        a.wf(),
        b.wf(),
        a.entries == b.entries,
        a.main.last() == b.main.last(),
    ensures
        a.main == b.main,
{
    lemma_main_is_lineage(a, a.main.len() - 1);
    lemma_main_is_lineage(b, b.main.len() - 1);
    assert(a.main.take(a.main.len() as int) =~= a.main);
    assert(b.main.take(b.main.len() as int) =~= b.main);
}

/// The stored blocks and the main chain among them.
pub struct ChainStore {
    entries: HashTable<ChainEntry>,
    main: Vec<H256>,
    tip: TipHeader,
}

impl View for ChainStore {
    type V = ChainView;

    closed spec fn view(&self) -> ChainView {
        ChainView {
            entries: Map::new(
                |hash: H256| self.entries@.contains_key(hash),
                |hash: H256| self.entries@[hash]@,
            ),
            main: self.main@,
            tip_difficulty: self.tip.total_difficulty,
        }
    }
}

impl ChainStore {
    /// The header kept for the tip is the one stored for the last block of the main chain.
    pub closed spec fn keeps_tip(&self) -> bool {
        self.tip.header == self@.tip()
    }

    pub open spec fn wf(&self) -> bool {
        &&& self@.wf()
        &&& self.keeps_tip()
        &&& self@.main.len() <= u64::MAX
    }

    /// The chain that consists of the genesis block alone.
    pub fn new(genesis: IndexedBlock, total_difficulty: U256, output_root: H256) -> (r: Self)
        requires
            genesis.header.number == 0,
        ensures
            r.wf(),
            r@.main == seq![genesis.header.hash],
            r@.entries == Map::<H256, EntryView>::empty().insert(
                genesis.header.hash,
                (EntryView {
                    header: genesis.header,
                    total_difficulty: Some(total_difficulty),
                    output_root: Some(output_root),
                    body: Some(genesis.body@),
                }),
            ),
            r@.tip_difficulty == total_difficulty,
    {
        let header = genesis.header;
        let mut entries: HashTable<ChainEntry> = HashTable::new();
        entries.insert(
            header.hash,
            ChainEntry {
                header,
                total_difficulty: Some(total_difficulty),
                output_root: Some(output_root),
                body: Some(genesis.body),
            },
        );
        let mut main: Vec<H256> = Vec::new();
        main.push(header.hash);
        let r = ChainStore { entries, main, tip: TipHeader { header, total_difficulty } };
        proof {
            assert(r@.main =~= seq![header.hash]);
            assert(r@.entries =~= Map::<H256, EntryView>::empty().insert(
                header.hash,
                r@.entries[header.hash],
            ));
        }
        r
    }

    /// The last header of the main chain and the work behind it.
    pub fn tip_header(&self) -> (r: TipHeader)
        requires
            self.wf(),
        ensures
            r.header == self@.tip(),
            r.total_difficulty == self@.tip_difficulty,
    {
        self.tip
    }

    /// The hash of the first block.
    pub fn genesis_hash(&self) -> (r: H256)
        requires
            self.wf(),
        ensures
            r == self@.genesis(),
    {
        self.main[0]
    }

    /// The header of a stored block.
    pub fn block_header(&self, hash: &H256) -> (r: Option<IndexedHeader>)
        ensures
            r == self@.header(*hash),
    {
        match self.entries.get(hash) {
            Some(entry) => Some(entry.header),
            None => None,
        }
    }

    /// The number of a block of the main chain.
    pub fn block_number(&self, hash: &H256) -> (r: Option<BlockNumber>)
        requires
            self.wf(),
        ensures
            r == self@.number_of(*hash),
    {
        proof {
            lemma_on_main(self@, *hash);
        }
        match self.entries.get(hash) {
            Some(entry) => {
                let number: u64 = entry.header.number;
                if number < self.main.len() as u64 && self.main[number as usize] == *hash {
                    Some(number)
                } else {
                    None
                }
            },
            None => None,
        }
    }

    /// The hash of the block with this number on the main chain.
    pub fn block_hash(&self, number: BlockNumber) -> (r: Option<H256>)
        ensures
            match r {
                Some(hash) => number < self@.main.len() && hash == self@.main[number as int],
                None => number >= self@.main.len(),
            },
    {
        if number < self.main.len() as u64 {
            Some(self.main[number as usize])
        } else {
            None
        }
    }

    /// The work of the chain that ends in the block, where it is known.
    pub fn block_ext(&self, hash: &H256) -> (r: Option<U256>)
        ensures
            r == (if self@.entries.contains_key(*hash) {
                self@.entries[*hash].total_difficulty
            } else {
                None
            }),
    {
        match self.entries.get(hash) {
            Some(entry) => entry.total_difficulty,
            None => None,
        }
    }

    /// The root over the outputs that exist after the block, where it is known.
    pub fn output_root(&self, hash: &H256) -> (r: Option<H256>)
        ensures
            r == (if self@.entries.contains_key(*hash) {
                self@.entries[*hash].output_root
            } else {
                None
            }),
    {
        match self.entries.get(hash) {
            Some(entry) => entry.output_root,
            None => None,
        }
    }

    /// The whole block, where its body is stored.
    pub fn block(&self, hash: &H256) -> (r: Option<IndexedBlock>)
        ensures
            match r {
                Some(block) => {
                    &&& self@.entries.contains_key(*hash)
                    &&& self@.entries[*hash].body == Some(block@.body)
                    &&& self@.entries[*hash].header == block@.header
                },
                None => !self@.entries.contains_key(*hash) || self@.entries[*hash].body is None,
            },
    {
        match self.entries.get(hash) {
            Some(entry) => match &entry.body {
                Some(body) => Some(IndexedBlock { header: entry.header, body: body.clone() }),
                None => None,
            },
            None => None,
        }
    }

    /// Stores a block that has been verified, and makes it the tip if `new_tip` says so. A block
    /// that is stored already is left as it is.
    pub fn store(
        &mut self,
        block: IndexedBlock,
        total_difficulty: U256,
        output_root: H256,
        new_tip: bool,
    ) -> (r: Result<(), ChainError>)
        requires
            old(self).wf(),
        ensures
            final(self).wf(),
            match r {
                Ok(()) => if old(self)@.entries.contains_key(block.header.hash) {
                    final(self)@ == old(self)@
                } else {
                    &&& old(self)@.extends(block.header)
                    &&& final(self)@ == old(self)@.with_block(
                        block@,
                        total_difficulty,
                        output_root,
                        new_tip,
                    )
                },
                Err(e) => {
                    &&& final(self)@ == old(self)@
                    &&& !old(self)@.entries.contains_key(block.header.hash)
                    &&& !old(self)@.extends(block.header)
                    &&& e == (if old(self)@.entries.contains_key(block.header.parent_hash) {
                        ChainError::WrongNumber
                    } else {
                        ChainError::UnknownParent
                    })
                },
            },
    {
        let header = block.header;
        if self.entries.contains(&header.hash) {
            return Ok(());
        }
        match self.entries.get(&header.parent_hash) {
            Some(parent) => {
                if header.number == 0 || parent.header.number != header.number - 1 {
                    return Err(ChainError::WrongNumber);
                }
            },
            None => {
                return Err(ChainError::UnknownParent);
            },
        }
        let ghost before = self@;
        let ghost stored = block@;
        proof {
            law_storing_keeps_chain(before, stored, total_difficulty, output_root, false);
            law_storing_keeps_chain(before, stored, total_difficulty, output_root, true);
        }
        self.entries.insert(
            header.hash,
            ChainEntry {
                header,
                total_difficulty: Some(total_difficulty),
                output_root: Some(output_root),
                body: Some(block.body),
            },
        );
        proof {
            assert(self@ =~= before.with_block(stored, total_difficulty, output_root, false));
        }
        if new_tip {
            self.switch_main(header.hash, header.parent_hash);
            self.tip = TipHeader { header, total_difficulty };
            proof {
                assert(self@ =~= before.with_block(stored, total_difficulty, output_root, true));
                assert(self.main.len() == self@.main.len());
            }
        }
        Ok(())
    }

    /// Makes the main chain end in the block `hash`, whose parent is `parent_hash`.
    fn switch_main(&mut self, hash: H256, parent_hash: H256)
        requires
            old(self)@.wf(),
            old(self)@.entries.contains_key(hash),
            old(self)@.entries[hash].header.number > 0,
            old(self)@.entries[hash].header.parent_hash == parent_hash,
        ensures
            final(self)@ == (ChainView {
                main: lineage(old(self)@.entries, hash),
                ..old(self)@
            }),
    {
        let ghost chain = self@;
        let mut branch: Vec<H256> = Vec::new();
        branch.push(hash);
        let mut cursor: H256 = parent_hash;
        let mut kept: usize = 0;
        proof {
            assert(chain.is_placed(hash));
            assert(branch@.reverse() =~= seq![hash]);
            assert(lineage(chain.entries, hash) =~= lineage(chain.entries, cursor)
                + branch@.reverse());
        }
        loop
            invariant
                self@ == chain,
                self == old(self),
                chain.wf(),
                chain.entries.contains_key(cursor),
                lineage(chain.entries, hash) == lineage(chain.entries, cursor) + branch@.reverse(),
            ensures
                0 < kept <= chain.main.len(),
                lineage(chain.entries, hash) == chain.main.take(kept as int) + branch@.reverse(),
            decreases chain.entries[cursor].header.number,
        {
            proof {
                lemma_on_main(chain, cursor);
                assert(chain.is_placed(cursor));
            }
            match self.entries.get(&cursor) {
                Some(entry) => {
                    let number: u64 = entry.header.number;
                    if number < self.main.len() as u64 && self.main[number as usize] == cursor {
                        kept = number as usize + 1;
                        proof {
                            lemma_main_is_lineage(chain, number as int);
                        }
                        break;
                    }
                    let ghost shorter = branch@.reverse();
                    branch.push(cursor);
                    proof {
                        assert(number > 0);
                        assert(lineage(chain.entries, cursor) == lineage(
                            chain.entries,
                            entry.header.parent_hash,
                        ).push(cursor));
                        assert(branch@.reverse() =~= seq![cursor] + shorter);
                        assert(lineage(chain.entries, hash) =~= lineage(
                            chain.entries,
                            entry.header.parent_hash,
                        ) + branch@.reverse());
                    }
                    cursor = entry.header.parent_hash;
                },
                None => {
                    kept = 1;
                    break;
                },
            }
        }
        self.main.truncate(kept);
        let mut left: usize = branch.len();
        while left > 0
            invariant
                left <= branch@.len(),
                self.entries == old(self).entries,
                self.tip == old(self).tip,
                self.main@ == chain.main.take(kept as int) + branch@.reverse().take(
                    branch@.len() - left,
                ),
            decreases left,
        {
            left = left - 1;
            self.main.push(branch[left]);
            assert(branch@.reverse().take(branch@.len() - left) =~= branch@.reverse().take(
                branch@.len() - left - 1,
            ).push(branch@[left as int]));
        }
        assert(branch@.reverse().take(branch@.len() as int) =~= branch@.reverse());
        assert(self@.entries =~= chain.entries);
    }
}

/// The main chain holds its blocks by number, each filed under its hash and followed by one that
/// names it as its parent; and a block of the main chain has the number of its place.
pub proof fn law_main_chain_is_numbered(chain: ChainView, n: int)
    requires
        chain.wf(),
        0 <= n < chain.main.len(),
    ensures
        chain.entries.contains_key(chain.main[n]),
        chain.entries[chain.main[n]].header.hash == chain.main[n],
        chain.entries[chain.main[n]].header.number == n,
        n > 0 ==> chain.entries[chain.main[n]].header.parent_hash == chain.main[n - 1],
        chain.on_main(chain.main[n]),
        chain.number_of(chain.main[n]) matches Some(number) && number == n,
{
    assert(chain.is_placed(chain.main[n]));
    if n > 0 {
        assert(chain.entries[chain.main[n]].header.parent_hash == chain.main[n - 1]);
    }
}

/// A block that is nowhere on the main chain has no number there.
pub proof fn law_block_beside_main_chain_has_no_number(chain: ChainView, hash: H256)
    requires
        forall|n: int| 0 <= n < chain.main.len() ==> #[trigger] chain.main[n] != hash,
    ensures
        !chain.on_main(hash),
        chain.number_of(hash) is None,
{
}

/// The genesis block is the first of the main chain, and the tip the last.
pub proof fn law_ends_of_main_chain(chain: ChainView)
    requires
        chain.wf(),
    ensures
        chain.genesis() == chain.main[0],
        chain.tip() == chain.entries[chain.main[chain.main.len() - 1]].header,
        chain.tip().hash == chain.main[chain.main.len() - 1],
        chain.tip().number == chain.main.len() - 1,
{
    law_main_chain_is_numbered(chain, chain.main.len() - 1);
}

/// The header of a stored block is found, on the main chain or beside it, and no other.
pub proof fn law_stored_header_is_found(chain: ChainView, hash: H256)
    ensures
        chain.entries.contains_key(hash) ==> chain.header(hash) == Some(chain.entries[hash].header),
        !chain.entries.contains_key(hash) ==> chain.header(hash) is None,
{
}

/// A block extends the chain wherever its parent is stored and its number is the next one,
/// whatever else its header holds.
pub proof fn law_what_extends_the_chain(chain: ChainView, header: IndexedHeader)
    ensures
        chain.entries.contains_key(header.parent_hash) && chain.entries[
        header.parent_hash].header.number + 1 == header.number ==> chain.extends(header),
        !chain.entries.contains_key(header.parent_hash) ==> !chain.extends(header),
        chain.entries[header.parent_hash].header.number + 1 != header.number ==> !chain.extends(
            header,
        ),
{
}

/// The outputs after a block are known where the root over them is stored with it.
pub proof fn law_known_outputs(chain: ChainView, hash: H256)
    ensures
        chain.entries.contains_key(hash) ==> chain.has_outputs(hash)
            == chain.entries[hash].output_root is Some,
        !chain.entries.contains_key(hash) ==> !chain.has_outputs(hash),
{
}

/// A block is stored under its hash with all that is handed over with it, and every other block
/// is left as it was. The main chain changes only where the block becomes the tip.
pub proof fn law_block_is_stored_whole(
    chain: ChainView,
    block: BlockView,
    total_difficulty: U256,
    output_root: H256,
    new_tip: bool,
)
    ensures
        ({
            let after = chain.with_block(block, total_difficulty, output_root, new_tip);
            let hash = block.header.hash;
            &&& after.entries.contains_key(hash)
            &&& after.entries[hash].header == block.header
            &&& after.entries[hash].body == Some(block.body)
            &&& after.entries[hash].total_difficulty == Some(total_difficulty)
            &&& after.entries[hash].output_root == Some(output_root)
            &&& after.entries.remove(hash) == chain.entries.remove(hash)
            &&& !new_tip ==> after.main == chain.main && after.tip_difficulty
                == chain.tip_difficulty
        }),
{
    let after = chain.with_block(block, total_difficulty, output_root, new_tip);
    let hash = block.header.hash;
    assert(after.entries.remove(hash) =~= chain.entries.remove(hash));
}

/// Where a stored block becomes the tip, the main chain ends in it with its work, and leads from
/// it to the genesis block by the parents that the stored headers name.
pub proof fn law_new_tip_ends_the_main_chain(
    chain: ChainView,
    block: BlockView,
    total_difficulty: U256,
    output_root: H256,
)
    requires
        chain.wf(),
        !chain.entries.contains_key(block.header.hash),
        chain.entries.contains_key(block.header.parent_hash),
        chain.entries[block.header.parent_hash].header.number + 1 == block.header.number,
    ensures
        ({
            let after = chain.with_block(block, total_difficulty, output_root, true);
            &&& after.tip_difficulty == total_difficulty
            &&& after.main.len() == block.header.number + 1
            &&& after.main[block.header.number as int] == block.header.hash
            &&& after.main[block.header.number - 1] == block.header.parent_hash
            &&& after.main[0] == chain.main[0]
            &&& forall|m: int, n: int|
                0 <= m && n == m + 1 && n < after.main.len() ==> after.entries.contains_key(
                    #[trigger] after.main[n],
                ) && after.entries[after.main[n]].header.parent_hash == #[trigger] after.main[m]
        }),
{
    let after = chain.with_block(block, total_difficulty, output_root, true);
    law_storing_keeps_chain(chain, block, total_difficulty, output_root, true);
    let grown = ChainView { entries: after.entries, ..chain };
    lemma_insert_keeps_tree(chain, after.entries[block.header.hash]);
    lemma_lineage(grown, block.header.hash);
    let number = block.header.number as int;
    assert(after.main == lineage(after.entries, block.header.hash));
    assert(after.entries[after.main[number]].header.parent_hash == after.main[number - 1]);
}

/// A chain is in order wherever each block is filed under its hash and follows a stored parent by
/// number, and the main chain is linked from the one block of number 0 up.
pub proof fn law_chain_is_in_order(chain: ChainView)
    requires
        chain.main.len() > 0,
        forall|hash: H256| #[trigger]
            chain.entries.contains_key(hash) ==> chain.entries[hash].header.hash == hash,
        forall|hash: H256| #[trigger]
            chain.entries.contains_key(hash) && chain.entries[hash].header.number == 0 ==> hash
                == chain.main[0],
        forall|hash: H256|
            chain.entries.contains_key(hash) && (#[trigger] chain.entries[hash]).header.number > 0
                ==> chain.entries.contains_key(chain.entries[hash].header.parent_hash)
                && chain.entries[chain.entries[hash].header.parent_hash].header.number + 1
                == chain.entries[hash].header.number,
        forall|n: int|
            0 <= n < chain.main.len() ==> chain.entries.contains_key(#[trigger] chain.main[n])
                && chain.entries[chain.main[n]].header.number == n,
        forall|m: int, n: int|
            0 <= m && n == m + 1 && n < chain.main.len() ==> chain.entries[
            #[trigger] chain.main[n]].header.parent_hash == #[trigger] chain.main[m],
    ensures
        chain.wf(),
{
    assert forall|hash: H256| chain.entries.contains_key(hash) implies #[trigger] chain.is_placed(
        hash,
    ) by {
        assert(chain.entries[hash].header.hash == hash);
    }
}

/// An entry stands for all that is stored of the block.
pub proof fn law_what_an_entry_stands_for(entry: ChainEntry)
    ensures
        entry@.header == entry.header,
        entry@.total_difficulty == entry.total_difficulty,
        entry@.output_root == entry.output_root,
        entry.body is None ==> entry@.body is None,
        entry.body matches Some(body) ==> entry@.body == Some(body@),
{
}

} // verus!
