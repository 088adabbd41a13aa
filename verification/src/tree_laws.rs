//! A transform tree as it is written (§7.3.8.8), and that decoding goes through
//! the units of that tree.

use crate::binarization;
use crate::binarization::{coded, gives, past, Bin};
use crate::cabac::{BinDecoder, CTX_CBF_CHROMA, CTX_CBF_LUMA, CTX_SPLIT_TRANSFORM};
use crate::ctu;
use crate::ctu::{Outcome, PartMode, TreeEnv, TuState};
use vstd::arithmetic::power2::*;
use vstd::prelude::*;

verus! {

/// A transform tree: a unit with its coded block flags, or a block in four
/// quarters, upper left, upper right, lower left, lower right. The chroma flags of
/// a split block say whether any of its quarters has coefficients.
pub enum Tree {
    Unit { luma: bool, cb: bool, cr: bool },
    Split { cb: bool, cr: bool, a: Box<Tree>, b: Box<Tree>, c: Box<Tree>, d: Box<Tree> },
}

impl Tree {
    pub open spec fn cb(self) -> bool {
        match self {
            Tree::Unit { cb, .. } => cb,
            Tree::Split { cb, .. } => cb,
        }
    }

    pub open spec fn cr(self) -> bool {
        match self {
            Tree::Unit { cr, .. } => cr,
            Tree::Split { cr, .. } => cr,
        }
    }
}

/// Where a tree stands: its block, the block it is a quarter of and which, and
/// the chroma flags of that one.
pub struct Place {
    pub x: int,
    pub y: int,
    pub log2: int,
    pub depth: int,
    pub xbase: int,
    pub ybase: int,
    pub quarter: int,
    pub over_cb: bool,
    pub over_cr: bool,
}

impl Place {
    /// Quarter `k` of the block, whose own flags are given.
    pub open spec fn part(self, k: int, cb: bool, cr: bool) -> Place {
        let half = pow2((self.log2 - 1) as nat) as int;
        Place {
            x: if k == 1 || k == 3 {
                self.x + half
            } else {
                self.x
            },
            y: if k == 2 || k == 3 {
                self.y + half
            } else {
                self.y
            },
            log2: self.log2 - 1,
            depth: self.depth + 1,
            xbase: self.x,
            ybase: self.y,
            quarter: k,
            over_cb: cb,
            over_cr: cr,
        }
    }
}

/// Whether the split of a block is known without a flag: one that is too large
/// for a transform is split, and one of the smallest size, or as deep as the unit
/// allows, is not. An intra unit in four parts is split once, and so is an inter
/// unit in several parts where it may not be split further.
pub open spec fn known_split(env: TreeEnv, p: Place) -> Option<bool> {
    let top = p.depth == 0;
    let four = env.cu.intra_split && top;
    let parts = !env.cu.intra && env.cu.part_mode != PartMode::Part2Nx2N && top
        && env.sps.max_transform_hierarchy_depth_inter == 0;
    if p.log2 > env.sps.log2_max_tb_size || four {
        Some(true)
    } else if p.log2 <= env.sps.log2_min_tb_size || p.depth >= env.cu.max_trafo_depth {
        Some(parts)
    } else {
        None
    }
}

/// The split flag: contexts 0 to 3 from 32×32 blocks down to 4×4.
pub open spec fn split_code(env: TreeEnv, p: Place, split: bool) -> Seq<Bin> {
    if known_split(env, p) is Some {
        Seq::empty()
    } else {
        seq![coded(CTX_SPLIT_TRANSFORM + (5 - p.log2), split)]
    }
}

/// A chroma flag, by depth. It is not written under a block that has it clear, nor
/// for a 4×4 block, which shares the chroma of the block it is a quarter of.
pub open spec fn chroma_code(p: Place, over: bool, flag: bool) -> Seq<Bin> {
    if p.log2 <= 2 || p.depth != 0 && !over {
        Seq::empty()
    } else {
        seq![coded(CTX_CBF_CHROMA + p.depth, flag)]
    }
}

/// A chroma flag that can be written.
pub open spec fn chroma_fits(p: Place, over: bool, flag: bool) -> bool {
    if p.log2 <= 2 {
        flag == over
    } else {
        flag ==> over || p.depth == 0
    }
}

/// The luma flag of a unit. An inter unit in one block without chroma has luma,
/// since it would have nothing else.
pub open spec fn luma_code(env: TreeEnv, p: Place, luma: bool, cb: bool, cr: bool) -> Seq<Bin> {
    if !env.cu.intra && p.depth == 0 && !cb && !cr {
        Seq::empty()
    } else {
        seq![
            coded(
                if p.depth == 0 {
                    CTX_CBF_LUMA + 1
                } else {
                    CTX_CBF_LUMA as int
                },
                luma,
            ),
        ]
    }
}

/// What stands before the content of a tree.
pub open spec fn head_code(env: TreeEnv, p: Place, t: Tree) -> Seq<Bin> {
    split_code(env, p, t is Split) + chroma_code(p, p.over_cb, t.cb()) + chroma_code(
        p,
        p.over_cr,
        t.cr(),
    ) + match t {
        Tree::Unit { luma, cb, cr } => luma_code(env, p, luma, cb, cr),
        Tree::Split { .. } => Seq::empty(),
    }
}

/// The flags of a tree can be written in that place.
pub open spec fn head_fits(env: TreeEnv, p: Place, t: Tree) -> bool {
    &&& known_split(env, p) matches Some(k) ==> k == (t is Split)
    &&& chroma_fits(p, p.over_cb, t.cb())
    &&& chroma_fits(p, p.over_cr, t.cr())
    &&& t matches Tree::Unit { luma, cb, cr } ==> (!env.cu.intra && p.depth == 0 && !cb && !cr
        ==> luma)
}

/// The units of a tree one after the other, each after its flags, in the order of
/// the quarters, until one fails.
pub open spec fn through<B: BinDecoder>(
    env: TreeEnv,
    st: TuState<B::State>,
    p: Place,
    t: Tree,
) -> Outcome<B::State>
    decreases t,
{
    let st1 = TuState { s: past::<B>(st.s, head_code(env, p, t)), ..st };
    match t {
        Tree::Unit { luma, cb, cr } => ctu::unit::<B>(
            env,
            st1,
            p.x,
            p.y,
            p.xbase,
            p.ybase,
            p.log2,
            p.quarter,
            luma,
            cb,
            cr,
        ),
        Tree::Split { cb, cr, a, b, c, d } => {
            let oa = through::<B>(env, st1, p.part(0, cb, cr), *a);
            let ob = if oa.1 is Some {
                oa
            } else {
                through::<B>(env, oa.0, p.part(1, cb, cr), *b)
            };
            let oc = if ob.1 is Some {
                ob
            } else {
                through::<B>(env, ob.0, p.part(2, cb, cr), *c)
            };
            if oc.1 is Some {
                oc
            } else {
                through::<B>(env, oc.0, p.part(3, cb, cr), *d)
            }
        },
    }
}

/// The flags of a tree come wherever they are read.
pub open spec fn written<B: BinDecoder>(
    env: TreeEnv,
    st: TuState<B::State>,
    p: Place,
    t: Tree,
) -> bool
    decreases t,
{
    let st1 = TuState { s: past::<B>(st.s, head_code(env, p, t)), ..st };
    &&& head_fits(env, p, t)
    &&& gives::<B>(st.s, head_code(env, p, t))
    &&& match t {
        Tree::Unit { .. } => true,
        Tree::Split { cb, cr, a, b, c, d } => {
            let oa = through::<B>(env, st1, p.part(0, cb, cr), *a);
            let ob = through::<B>(env, oa.0, p.part(1, cb, cr), *b);
            let oc = through::<B>(env, ob.0, p.part(2, cb, cr), *c);
            &&& p.log2 > 0
            &&& written::<B>(env, st1, p.part(0, cb, cr), *a)
            &&& oa.1 is None ==> written::<B>(env, oa.0, p.part(1, cb, cr), *b)
            &&& oa.1 is None && ob.1 is None ==> written::<B>(env, ob.0, p.part(2, cb, cr), *c)
            &&& oa.1 is None && ob.1 is None && oc.1 is None ==> written::<B>(
                env,
                oc.0,
                p.part(3, cb, cr),
                *d,
            )
        },
    }
}

/// The decoding of a tree in its place.
pub open spec fn decoded<B: BinDecoder>(
    env: TreeEnv,
    st: TuState<B::State>,
    p: Place,
) -> Outcome<B::State> {
    ctu::tree::<B>(
        env,
        st,
        p.x,
        p.y,
        p.xbase,
        p.ybase,
        p.log2,
        p.depth,
        p.quarter,
        p.over_cb,
        p.over_cr,
    )
}

/// The flags before a tree read back.
proof fn lemma_head<B: BinDecoder>(env: TreeEnv, s: B::State, p: Place, t: Tree) -> (r: B::State)
    requires
        head_fits(env, p, t),
        gives::<B>(s, head_code(env, p, t)),
    ensures
        ({
            let (s1, split) = ctu::split_flag::<B>(env, s, p.log2, p.depth);
            let (s2, cb) = ctu::chroma_cbf::<B>(s1, p.log2, p.depth, p.over_cb);
            let (s3, cr) = ctu::chroma_cbf::<B>(s2, p.log2, p.depth, p.over_cr);
            let tail = match t {
                Tree::Unit { luma, cb, cr } => luma_code(env, p, luma, cb, cr),
                Tree::Split { .. } => Seq::empty(),
            };
            &&& s3 == r
            &&& split == (t is Split)
            &&& cb == t.cb()
            &&& cr == t.cr()
            &&& gives::<B>(r, tail)
            &&& past::<B>(r, tail) == past::<B>(s, head_code(env, p, t))
        }),
{
    let split = split_code(env, p, t is Split);
    let cb = chroma_code(p, p.over_cb, t.cb());
    let cr = chroma_code(p, p.over_cr, t.cr());
    let tail = match t {
        Tree::Unit { luma, cb, cr } => luma_code(env, p, luma, cb, cr),
        Tree::Split { .. } => Seq::empty(),
    };
    binarization::lemma_joined::<B>(s, split + cb + cr, tail);
    binarization::lemma_joined::<B>(s, split + cb, cr);
    binarization::lemma_joined::<B>(s, split, cb);
    let s1 = past::<B>(s, split);
    let s2 = past::<B>(s1, cb);
    let s3 = past::<B>(s2, cr);
    binarization::lemma_nothing::<B>(s);
    binarization::lemma_nothing::<B>(s1);
    binarization::lemma_nothing::<B>(s2);
    if known_split(env, p) is None {
        binarization::lemma_single::<B>(s, split[0]);
        assert(split =~= seq![split[0]]);
    }
    if cb.len() > 0 {
        binarization::lemma_single::<B>(s1, cb[0]);
        assert(cb =~= seq![cb[0]]);
    }
    if cr.len() > 0 {
        binarization::lemma_single::<B>(s2, cr[0]);
        assert(cr =~= seq![cr[0]]);
    }
    s3
}

/// Decoding a tree that was written goes through its units: each in its place,
/// with its own flags, in the order of the quarters.
pub proof fn lemma_tree_reads_back<B: BinDecoder>(
    env: TreeEnv,
    st: TuState<B::State>,
    p: Place,
    t: Tree,
)
    requires
        written::<B>(env, st, p, t),
    ensures
        decoded::<B>(env, st, p) == through::<B>(env, st, p, t),
    decreases t,
{
    reveal_with_fuel(ctu::tree, 1);
    let s3 = lemma_head::<B>(env, st.s, p, t);
    match t {
        Tree::Unit { luma, cb, cr } => {
            let tail = luma_code(env, p, luma, cb, cr);
            binarization::lemma_nothing::<B>(s3);
            if tail.len() > 0 {
                binarization::lemma_single::<B>(s3, tail[0]);
                assert(tail =~= seq![tail[0]]);
            }
        },
        Tree::Split { cb, cr, a, b, c, d } => {
            binarization::lemma_nothing::<B>(s3);
            let st1 = TuState { s: s3, ..st };
            assert(s3 == past::<B>(st.s, head_code(env, p, t)));
            let oa = through::<B>(env, st1, p.part(0, cb, cr), *a);
            let ob = through::<B>(env, oa.0, p.part(1, cb, cr), *b);
            let oc = through::<B>(env, ob.0, p.part(2, cb, cr), *c);
            lemma_tree_reads_back::<B>(env, st1, p.part(0, cb, cr), *a);
            if oa.1 is None {
                lemma_tree_reads_back::<B>(env, oa.0, p.part(1, cb, cr), *b);
                if ob.1 is None {
                    lemma_tree_reads_back::<B>(env, ob.0, p.part(2, cb, cr), *c);
                    if oc.1 is None {
                        lemma_tree_reads_back::<B>(env, oc.0, p.part(3, cb, cr), *d);
                    }
                }
            }
        },
    }
}

} // verus!
