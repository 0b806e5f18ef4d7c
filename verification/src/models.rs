//! Blocks and the rules that read them: the validity audit, the weekly
//! eligibility gate, and the derived per-block tags.

use vstd::prelude::*;

use crate::utils::{
    base18_chars, be_val, calculate_hash, format_data, format_moves, parse_chars, parse_moves,
    scramble_from_hash, sha256_of, spec_format_data, spec_format_moves, spec_scramble_from_hash,
    spec_solves, verify_solution,
};

verus! {

/// A derived, read-only classification of a block.
#[derive(Debug, PartialEq, Eq, Structural, Clone, Copy)]
pub enum BlockTag {
    Genesis,
    New,
    Recommended,
    MainChain,
}

impl BlockTag {
    /// The tag's display label.
    pub fn label(&self) -> (r: &'static str)
        ensures
            r@ == spec_label(*self),
    {
        match self {
            BlockTag::Genesis => {
                let r = "Genesis";
                proof {
                    reveal_strlit("Genesis");
                    assert(r@ =~= spec_label(*self));
                }
                r
            },
            BlockTag::New => {
                let r = "New";
                proof {
                    reveal_strlit("New");
                    assert(r@ =~= spec_label(*self));
                }
                r
            },
            BlockTag::Recommended => {
                let r = "Recommended";
                proof {
                    reveal_strlit("Recommended");
                    assert(r@ =~= spec_label(*self));
                }
                r
            },
            BlockTag::MainChain => {
                let r = "Main Chain";
                proof {
                    reveal_strlit("Main Chain");
                    assert(r@ =~= spec_label(*self));
                }
                r
            },
        }
    }

    /// The tag's machine value.
    pub fn value(&self) -> (r: &'static str)
        ensures
            r@ == spec_value(*self),
    {
        match self {
            BlockTag::Genesis => {
                let r = "genesis";
                proof {
                    reveal_strlit("genesis");
                    assert(r@ =~= spec_value(*self));
                }
                r
            },
            BlockTag::New => {
                let r = "new";
                proof {
                    reveal_strlit("new");
                    assert(r@ =~= spec_value(*self));
                }
                r
            },
            BlockTag::Recommended => {
                let r = "recommended";
                proof {
                    reveal_strlit("recommended");
                    assert(r@ =~= spec_value(*self));
                }
                r
            },
            BlockTag::MainChain => {
                let r = "main_chain";
                proof {
                    reveal_strlit("main_chain");
                    assert(r@ =~= spec_value(*self));
                }
                r
            },
        }
    }
}

pub open spec fn spec_label(t: BlockTag) -> Seq<char> {
    match t {
        BlockTag::Genesis => "Genesis"@,
        BlockTag::New => "New"@,
        BlockTag::Recommended => "Recommended"@,
        BlockTag::MainChain => "Main Chain"@,
    }
}

pub open spec fn spec_value(t: BlockTag) -> Seq<char> {
    match t {
        BlockTag::Genesis => "genesis"@,
        BlockTag::New => "new"@,
        BlockTag::Recommended => "recommended"@,
        BlockTag::MainChain => "main_chain"@,
    }
}

/// An immutable record of the chain: a hash, an optional parent hash, a
/// height, content, and a verified solution. `created_at` is the creation
/// time in whole seconds since the Unix epoch, UTC.
#[derive(Debug, Clone)]
pub struct Block {
    pub version: u8,
    pub hash: String,
    pub parent_hash: Option<String>,
    pub height: i64,
    pub name: String,
    pub message: String,
    pub solution: String,
    pub solution_moves: u8,
    pub solution_description: String,
    pub created_at: Option<u64>,
}

/// The start (Monday 00:00 UTC) of the week `now` lies in, in seconds
/// since the Unix epoch; day zero of the epoch is a Thursday.
pub open spec fn week_start(now: u64) -> int {
    let days = now as int / 86400;
    (days - (days + 3) % 7) * 86400
}

/// A block may be extended now exactly when it is the genesis block or
/// was created strictly before Monday 00:00 of the week `now` lies in.
pub open spec fn spec_can_create_child(b: Block, now: u64) -> bool {
    b.height == 0 || (b.created_at is Some && (b.created_at->0 as int) < week_start(now))
}

/// The expected hash of a block over its parent hash and content.
pub open spec fn spec_block_hash(p: Seq<char>, n: Seq<char>, m: Seq<char>) -> Seq<char> {
    base18_chars(be_val(sha256_of(spec_format_data(p, n, m)).subrange(0, 16)))
}

/// What the validity audit checks of a stored block: the stored solution
/// solves the scramble derived from the stored hash, the stored move
/// count matches the parsed solution, and the stored hash is non-empty
/// and equals the hash recomputed from parent hash, name and message.
pub open spec fn spec_is_valid(b: Block) -> bool {
    let parent = if b.parent_hash is Some {
        b.parent_hash->0@
    } else {
        Seq::<char>::empty()
    };
    let scramble = parse_chars(spec_format_moves(spec_scramble_from_hash(b.hash@)));
    let solution = parse_chars(b.solution@);
    &&& spec_solves(scramble, solution)
    &&& b.solution_moves as int == solution.len()
    &&& b.hash@.len() > 0
    &&& b.hash@ == spec_block_hash(parent, b.name@, b.message@)
}

/// The tags of a block, in display order.
pub open spec fn spec_tags(b: Block, now: u64, hashes: Seq<String>, optimal_height: i64) -> Seq<
    BlockTag,
> {
    let new_part: Seq<BlockTag> = if !spec_from_last_week(b, now) && b.height > 0 {
        seq![BlockTag::New]
    } else {
        Seq::empty()
    };
    let rec_part: Seq<BlockTag> = if b.height == optimal_height && spec_can_create_child(b, now) {
        seq![BlockTag::Recommended]
    } else {
        Seq::empty()
    };
    let main_part: Seq<BlockTag> = if hash_set_contains(hashes, b.hash@) {
        seq![BlockTag::MainChain]
    } else {
        Seq::empty()
    };
    let gen_part: Seq<BlockTag> = if b.height == 0 {
        seq![BlockTag::Genesis]
    } else {
        Seq::empty()
    };
    new_part + rec_part + main_part + gen_part
}

/// The block was created before the start of the current week.
pub open spec fn spec_from_last_week(b: Block, now: u64) -> bool {
    b.created_at is Some && (b.created_at->0 as int) < week_start(now)
}

pub open spec fn hash_set_contains(hashes: Seq<String>, h: Seq<char>) -> bool {
    exists|i: int| 0 <= i < hashes.len() && #[trigger] hashes[i]@ == h
}

/// Whether the hash text occurs in the list.
pub fn contains_hash(hashes: &Vec<String>, h: &String) -> (r: bool)
    ensures
        r == hash_set_contains(hashes@, h@),
{
    let mut i: usize = 0;
    while i < hashes.len()
        invariant
            i <= hashes@.len(),
            forall|j: int| 0 <= j < i as int ==> #[trigger] hashes@[j]@ != h@,
        decreases hashes@.len() - i,
    {
        if hashes[i].eq(h) {
            return true;
        }
        i = i + 1;
    }
    false
}

impl Block {
    /// True when the block was created strictly before Monday 00:00 of
    /// the week `now` lies in.
    fn is_from_last_week(&self, now: u64) -> (r: bool)
        requires
            self.created_at is Some,
        ensures
            r == spec_from_last_week(*self, now),
    {
        let created = match self.created_at {
            Some(t) => t,
            None => 0,
        };
        let days = now / 86400;
        let days_since_monday = (days + 3) % 7;
        if days < days_since_monday {
            // The week containing `now` began before the epoch.
            proof {
                assert(week_start(now) <= 0);
            }
            false
        } else {
            let start_of_week = (days - days_since_monday) * 86400;
            proof {
                assert((days - days_since_monday) * 86400 == week_start(now));
            }
            created < start_of_week
        }
    }

    /// Whether a child block may be created under this block now:
    /// genesis is always extendable, any other block only once its
    /// creation week has passed.
    pub fn can_create_child(&self, now: u64) -> (r: bool)
        requires
            self.created_at is Some,
        ensures
            r == spec_can_create_child(*self, now),
    {
        let height_zero = self.height == 0;
        height_zero || self.is_from_last_week(now)
    }

    /// The scramble text of this block, derived from its hash.
    pub fn scramble(&self) -> (r: String)
        ensures
            r@ == spec_format_moves(spec_scramble_from_hash(self.hash@)),
    {
        let moves = scramble_from_hash(self.hash.as_str());
        format_moves(moves.as_slice())
    }

    /// The first eight characters of the hash.
    pub fn short_hash(&self) -> (r: String)
        ensures
            r@ == if self.hash@.len() <= 8 {
                self.hash@
            } else {
                self.hash@.take(8)
            },
    {
        let len = self.hash.as_str().unicode_len();
        if len <= 8 {
            proof {
                assert(self.hash@.subrange(0, len as int) =~= self.hash@);
            }
            self.hash.as_str().substring_char(0, len).to_owned()
        } else {
            self.hash.as_str().substring_char(0, 8).to_owned()
        }
    }

    /// Recomputes the hash from parent hash, name and message, rederives
    /// the scramble, parses the stored solution, and checks all of: the
    /// solution verifies, the move count matches, and the stored hash is
    /// non-empty and equal to the recomputed one.
    pub fn is_valid(&self) -> (r: bool)
        ensures
            r == spec_is_valid(*self),
    {
        let parent = match &self.parent_hash {
            Some(p) => p.as_str(),
            None => {
                let e = "";
                proof {
                    reveal_strlit("");
                    assert(e@ =~= Seq::<char>::empty());
                }
                e
            },
        };
        let data = format_data(parent, self.name.as_str(), self.message.as_str());
        let expected_hash = calculate_hash(data.as_slice());
        let scramble_text = self.scramble();
        let scramble = parse_moves(scramble_text.as_str());
        let solution = parse_moves(self.solution.as_str());
        let solved = verify_solution(scramble.as_slice(), solution.as_slice());
        solved && self.solution_moves as usize == solution.len() && !self.hash.as_str().is_empty()
            && self.hash == expected_hash
    }

    /// The tags of this block: New, Recommended, Main Chain, Genesis, in
    /// that order, each when its rule holds.
    pub fn tags(&self, now: u64, main_chain_hashes: &Vec<String>, optimal_height: i64) -> (r: Vec<
        BlockTag,
    >)
        requires
            self.created_at is Some,
        ensures
            r@ == spec_tags(*self, now, main_chain_hashes@, optimal_height),
    {
        let mut tags: Vec<BlockTag> = Vec::new();
        if !self.is_from_last_week(now) && self.height > 0 {
            tags.push(BlockTag::New);
        }
        if self.height == optimal_height && self.can_create_child(now) {
            tags.push(BlockTag::Recommended);
        }
        if contains_hash(main_chain_hashes, &self.hash) {
            tags.push(BlockTag::MainChain);
        }
        if self.height == 0 {
            tags.push(BlockTag::Genesis);
        }
        proof {
            assert(tags@ =~= spec_tags(*self, now, main_chain_hashes@, optimal_height));
        }
        tags
    }
}

/// A block counts as recommended within a snapshot when it is extendable
/// now and no extendable block in the snapshot sits lower.
pub open spec fn is_recommended_in(bs: Seq<Block>, i: int, now: u64) -> bool {
    &&& 0 <= i < bs.len()
    &&& spec_can_create_child(bs[i], now)
    &&& forall|j: int|
        0 <= j < bs.len() && spec_can_create_child(#[trigger] bs[j], now) ==> bs[i].height
            <= bs[j].height
}

pub open spec fn count_recommended_upto(bs: Seq<Block>, now: u64, k: int) -> int
    decreases k,
{
    if k <= 0 {
        0
    } else {
        count_recommended_upto(bs, now, k - 1) + if is_recommended_in(bs, k - 1, now) {
            1int
        } else {
            0int
        }
    }
}

impl Block {
    /// The number of recommended blocks in the snapshot: the extendable
    /// blocks at the minimal height among all extendable blocks.
    pub fn get_recommended_count(blocks: &Vec<Block>, now: u64) -> (r: usize)
        requires
            forall|i: int| 0 <= i < blocks@.len() ==> (#[trigger] blocks@[i]).created_at is Some,
        ensures
            r as int == count_recommended_upto(blocks@, now, blocks@.len() as int),
    {
        let mut have_min = false;
        let mut min_h: i64 = 0;
        let mut i: usize = 0;
        while i < blocks.len()
            invariant
                i <= blocks@.len(),
                forall|k: int|
                    0 <= k < blocks@.len() ==> (#[trigger] blocks@[k]).created_at is Some,
                have_min <==> exists|k: int|
                    0 <= k < i as int && spec_can_create_child(#[trigger] blocks@[k], now),
                have_min ==> exists|k: int|
                    0 <= k < i as int && spec_can_create_child(#[trigger] blocks@[k], now)
                        && blocks@[k].height == min_h,
                forall|k: int|
                    0 <= k < i as int && spec_can_create_child(#[trigger] blocks@[k], now)
                        ==> min_h <= blocks@[k].height,
            decreases blocks@.len() - i,
        {
            if blocks[i].can_create_child(now) {
                let h = blocks[i].height;
                if !have_min || h < min_h {
                    min_h = h;
                    have_min = true;
                }
            }
            i = i + 1;
        }
        if !have_min {
            proof {
                lemma_count_recommended_none(blocks@, now, blocks@.len() as int);
            }
            return 0;
        }
        let mut count: usize = 0;
        let mut k: usize = 0;
        while k < blocks.len()
            invariant
                k <= blocks@.len(),
                count <= k,
                forall|j: int|
                    0 <= j < blocks@.len() ==> (#[trigger] blocks@[j]).created_at is Some,
                exists|j: int|
                    0 <= j < blocks@.len() && spec_can_create_child(#[trigger] blocks@[j], now)
                        && blocks@[j].height == min_h,
                forall|j: int|
                    0 <= j < blocks@.len() && spec_can_create_child(#[trigger] blocks@[j], now)
                        ==> min_h <= blocks@[j].height,
                count as int == count_recommended_upto(blocks@, now, k as int),
            decreases blocks@.len() - k,
        {
            if blocks[k].can_create_child(now) && blocks[k].height == min_h {
                count = count + 1;
                proof {
                    assert(is_recommended_in(blocks@, k as int, now));
                }
            } else {
                proof {
                    if spec_can_create_child(blocks@[k as int], now) {
                        assert(!is_recommended_in(blocks@, k as int, now)) by {
                            let ghost w = choose|j: int|
                                0 <= j < blocks@.len() && spec_can_create_child(
                                    #[trigger] blocks@[j],
                                    now,
                                ) && blocks@[j].height == min_h;
                            assert(blocks@[k as int].height > min_h);
                            assert(blocks@[w].height < blocks@[k as int].height);
                        }
                    }
                }
            }
            k = k + 1;
        }
        count
    }
}

proof fn lemma_count_recommended_none(bs: Seq<Block>, now: u64, k: int)
    requires
        forall|j: int| 0 <= j < bs.len() ==> !spec_can_create_child(#[trigger] bs[j], now),
        k <= bs.len(),
    ensures
        count_recommended_upto(bs, now, k) == 0,
    decreases k,
{
    if k > 0 {
        lemma_count_recommended_none(bs, now, k - 1);
    }
}

/// Law: the weekly gate. The genesis block is extendable at any time,
/// and a non-genesis block created at or after the start of the current
/// week is not.
pub proof fn lemma_weekly_gate(b: Block, now: u64)
    ensures
        b.height == 0 ==> spec_can_create_child(b, now),
        b.height != 0 && b.created_at is Some && b.created_at->0 as int >= week_start(now)
            ==> !spec_can_create_child(b, now),
{
}

/// Query parameters of a block listing: whether to show every block, and
/// an optional page size and offset.
pub struct BlockQueryParams {
    pub all: Option<bool>,
    pub page_size: Option<u32>,
    pub page_offset: Option<u32>,
}

} // verus!
