//! What a transform unit's coded block flags mean (§7.3.8.10).

use crate::cabac::BinDecoder;
use crate::ctu;
use crate::ctu::{CodingUnit, Outcome, TreeEnv, TuOp, TuState, TuStep};
use crate::slice::SliceHeader;
use vstd::arithmetic::div_mod::*;
use vstd::arithmetic::power2::*;
use vstd::prelude::*;

verus! {

/// The residual steps of a component.
pub open spec fn residuals(ops: Seq<TuStep>, comp: int) -> nat
    decreases ops.len(),
{
    if ops.len() == 0 {
        0
    } else {
        residuals(ops.drop_last(), comp) + (match ops.last() {
            TuStep::Residual { c, .. } => if c == comp {
                1nat
            } else {
                0nat
            },
            TuStep::Predict { .. } => 0nat,
        })
    }
}

/// The prediction steps of a component.
pub open spec fn predicted(ops: Seq<TuStep>, comp: int) -> nat
    decreases ops.len(),
{
    if ops.len() == 0 {
        0
    } else {
        predicted(ops.drop_last(), comp) + (match ops.last() {
            TuStep::Predict { c, .. } => if c == comp {
                1nat
            } else {
                0nat
            },
            TuStep::Residual { .. } => 0nat,
        })
    }
}

/// The component of a step.
pub open spec fn component_of(step: TuStep) -> int {
    match step {
        TuStep::Predict { c, .. } => c,
        TuStep::Residual { c, .. } => c,
    }
}

/// One more of something, if so.
pub open spec fn one_if(b: bool) -> nat {
    if b {
        1
    } else {
        0
    }
}

/// `a` is `b` with more steps, each of a component from `lo` to `hi`, in order of
/// the components: for each component as many residuals and predictions as
/// `res` and `pred` say.
#[verifier::opaque]
pub open spec fn adds(
    b: Seq<TuStep>,
    a: Seq<TuStep>,
    res: Seq<nat>,
    pred: Seq<nat>,
    lo: int,
    hi: int,
) -> bool {
    &&& b.len() <= a.len()
    &&& forall|i: int| #![trigger a[i]] 0 <= i < b.len() ==> a[i] == b[i]
    &&& forall|i: int| #![trigger a[i]] b.len() <= i < a.len() ==> lo <= component_of(a[i]) <= hi
    &&& forall|i: int, j: int|
        #![trigger a[i], a[j]]
        b.len() <= i <= j < a.len() ==> component_of(a[i]) <= component_of(a[j])
    &&& forall|c: int|
        #![trigger residuals(a, c)]
        0 <= c < 3 ==> residuals(a, c) == residuals(b, c) + res[c]
    &&& forall|c: int|
        #![trigger predicted(a, c)]
        0 <= c < 3 ==> predicted(a, c) == predicted(b, c) + pred[c]
}

/// The same number in one place, zero in the others.
pub open spec fn only(c: int, n: nat) -> Seq<nat> {
    Seq::new(
        3,
        |i: int|
            if i == c {
                n
            } else {
                0
            },
    )
}

proof fn lemma_adds_joined(
    x: Seq<TuStep>,
    y: Seq<TuStep>,
    z: Seq<TuStep>,
    r1: Seq<nat>,
    p1: Seq<nat>,
    r2: Seq<nat>,
    p2: Seq<nat>,
    r: Seq<nat>,
    p: Seq<nat>,
    lo: int,
    mid: int,
    hi: int,
)
    requires
        adds(x, y, r1, p1, lo, mid),
        adds(y, z, r2, p2, mid, hi),
        lo <= mid <= hi,
        forall|c: int| #![trigger r[c]] 0 <= c < 3 ==> r[c] == r1[c] + r2[c],
        forall|c: int| #![trigger p[c]] 0 <= c < 3 ==> p[c] == p1[c] + p2[c],
    ensures
        adds(x, z, r, p, lo, hi),
{
    reveal(adds);
    assert forall|i: int, j: int|
        #![trigger z[i], z[j]]
        x.len() <= i <= j < z.len() implies component_of(z[i]) <= component_of(z[j]) by {
        if j < y.len() {
            assert(z[i] == y[i] && z[j] == y[j]);
        } else if i < y.len() {
            assert(z[i] == y[i]);
        }
    }
    assert forall|i: int| #![trigger z[i]] x.len() <= i < z.len() implies lo <= component_of(z[i])
        <= hi by {
        if i < y.len() {
            assert(z[i] == y[i]);
        }
    }
    assert forall|i: int| #![trigger z[i]] 0 <= i < x.len() implies z[i] == x[i] by {
        assert(z[i] == y[i]);
    }
    assert forall|c: int| #![trigger residuals(z, c)] 0 <= c < 3 implies residuals(z, c)
        == residuals(x, c) + r[c] by {
        assert(residuals(y, c) == residuals(x, c) + r1[c]);
    }
    assert forall|c: int| #![trigger predicted(z, c)] 0 <= c < 3 implies predicted(z, c)
        == predicted(x, c) + p[c] by {
        assert(predicted(y, c) == predicted(x, c) + p1[c]);
    }
}

proof fn lemma_adds_push(ops: Seq<TuStep>, step: TuStep)
    requires
        0 <= component_of(step) < 3,
    ensures
        adds(
            ops,
            ops.push(step),
            only(component_of(step), one_if(step is Residual)),
            only(component_of(step), one_if(step is Predict)),
            component_of(step),
            component_of(step),
        ),
{
    reveal(adds);
    let a = ops.push(step);
    assert(a.drop_last() =~= ops);
    assert(a.last() == step);
}

proof fn lemma_adds_nothing(ops: Seq<TuStep>, none: Seq<nat>, lo: int, hi: int)
    requires
        none[0] == 0,
        none[1] == 0,
        none[2] == 0,
    ensures
        adds(ops, ops, none, none, lo, hi),
{
    reveal(adds);
}

proof fn lemma_adds_wider(
    b: Seq<TuStep>,
    a: Seq<TuStep>,
    res: Seq<nat>,
    pred: Seq<nat>,
    lo: int,
    hi: int,
    lo2: int,
    hi2: int,
)
    requires
        adds(b, a, res, pred, lo, hi),
        lo2 <= lo,
        hi <= hi2,
    ensures
        adds(b, a, res, pred, lo2, hi2),
{
    reveal(adds);
}

proof fn lemma_component_adds<B: BinDecoder>(
    env: TreeEnv,
    st: TuState<B::State>,
    c: int,
    x: int,
    y: int,
    log2: int,
    mode: u8,
    cbf: bool,
)
    requires
        0 <= c < 3,
    ensures
        ({
            let o = ctu::component::<B>(env, st, c, x, y, log2, mode, cbf);
            o.1 is None ==> adds(
                st.ops,
                o.0.ops,
                only(c, one_if(cbf)),
                only(c, one_if(env.cu.intra)),
                c,
                c,
            )
        }),
{
    let o = ctu::component::<B>(env, st, c, x, y, log2, mode, cbf);
    if o.1 is None {
        let ops1 = if env.cu.intra {
            o.0.ops.take(st.ops.len() as int + 1)
        } else {
            st.ops
        };
        lemma_adds_nothing(st.ops, only(c, 0), c, c);
        lemma_adds_nothing(ops1, only(c, 0), c, c);
        if env.cu.intra {
            let p = ops1.last();
            assert(ops1 =~= st.ops.push(p));
            lemma_adds_push(st.ops, p);
        }
        if cbf {
            let last = o.0.ops.last();
            assert(o.0.ops =~= ops1.push(last));
            lemma_adds_push(ops1, last);
        } else {
            assert(o.0.ops =~= ops1);
        }
        lemma_adds_joined(
            st.ops,
            ops1,
            o.0.ops,
            only(c, 0),
            only(c, one_if(env.cu.intra)),
            only(c, one_if(cbf)),
            only(c, 0),
            only(c, one_if(cbf)),
            only(c, one_if(env.cu.intra)),
            c,
            c,
            c,
        );
    }
}

proof fn lemma_luma_adds<B: BinDecoder>(
    env: TreeEnv,
    st: TuState<B::State>,
    x: int,
    y: int,
    log2: int,
    cbf: bool,
)
    ensures
        ({
            let o = ctu::luma_part::<B>(env, st, x, y, log2, cbf);
            o.1 is None ==> adds(
                st.ops,
                o.0.ops,
                only(0, one_if(cbf)),
                only(0, one_if(env.cu.intra)),
                0,
                0,
            )
        }),
{
    let n = pow2(log2 as nat) as int;
    let st1 = TuState { edges: ctu::edges_marked(st.edges, env.w4, x, y, n), ..st };
    let mode = env.modes[(y / 4) * env.w4 + x / 4];
    lemma_component_adds::<B>(env, st1, 0, x, y, log2, mode, cbf);
}

/// One for each component that has it: luma, Cb, Cr.
pub open spec fn counts(luma: bool, cb: bool, cr: bool) -> Seq<nat> {
    Seq::new(
        3,
        |c: int|
            one_if(
                if c == 0 {
                    luma
                } else if c == 1 {
                    cb
                } else {
                    cr
                },
            ),
    )
}

proof fn lemma_chroma_adds<B: BinDecoder>(
    env: TreeEnv,
    st: TuState<B::State>,
    x: int,
    y: int,
    log2: int,
    cbf_cb: bool,
    cbf_cr: bool,
)
    ensures
        ({
            let o = ctu::chroma_part::<B>(env, st, x, y, log2, cbf_cb, cbf_cr);
            o.1 is None ==> adds(
                st.ops,
                o.0.ops,
                counts(false, cbf_cb, cbf_cr),
                counts(false, env.cu.intra, env.cu.intra),
                1,
                2,
            )
        }),
{
    let m = env.cu.intra_chroma_mode;
    let i = one_if(env.cu.intra);
    let o1 = ctu::component::<B>(env, st, 1, x, y, log2, m, cbf_cb);
    let o2 = ctu::chroma_part::<B>(env, st, x, y, log2, cbf_cb, cbf_cr);
    lemma_component_adds::<B>(env, st, 1, x, y, log2, m, cbf_cb);
    if o1.1 is None {
        lemma_component_adds::<B>(env, o1.0, 2, x, y, log2, m, cbf_cr);
        if o2.1 is None {
            lemma_adds_wider(
                o1.0.ops,
                o2.0.ops,
                only(2, one_if(cbf_cr)),
                only(2, i),
                2,
                2,
                1,
                2,
            );
            lemma_adds_joined(
                st.ops,
                o1.0.ops,
                o2.0.ops,
                only(1, one_if(cbf_cb)),
                only(1, i),
                only(2, one_if(cbf_cr)),
                only(2, i),
                counts(false, cbf_cb, cbf_cr),
                counts(false, env.cu.intra, env.cu.intra),
                1,
                1,
                2,
            );
        }
    }
}

/// A transform unit that reads without an error has a residual for a component
/// if and only if that component's own coded block flag is set: luma, and where
/// the unit carries chroma, Cb and Cr each by its own. Where the coding unit is
/// intra, each of these components is predicted, once; else none is. The steps
/// deal with luma, then Cb, then Cr.
pub proof fn lemma_unit_follows_its_flags<B: BinDecoder>(
    env: TreeEnv,
    st: TuState<B::State>,
    x: int,
    y: int,
    xbase: int,
    ybase: int,
    log2: int,
    blk_idx: int,
    cbf_luma: bool,
    cbf_cb: bool,
    cbf_cr: bool,
)
    ensures
        ({
            let o = ctu::unit::<B>(
                env,
                st,
                x,
                y,
                xbase,
                ybase,
                log2,
                blk_idx,
                cbf_luma,
                cbf_cb,
                cbf_cr,
            );
            let chroma = log2 > 2 || blk_idx == 3;
            o.1 is None ==> adds(
                st.ops,
                o.0.ops,
                counts(cbf_luma, chroma && cbf_cb, chroma && cbf_cr),
                counts(env.cu.intra, chroma && env.cu.intra, chroma && env.cu.intra),
                0,
                2,
            )
        }),
{
    let o = ctu::unit::<B>(
        env,
        st,
        x,
        y,
        xbase,
        ybase,
        log2,
        blk_idx,
        cbf_luma,
        cbf_cb,
        cbf_cr,
    );
    if o.1 is None {
        let o1 = before_luma::<B>(env, st, cbf_luma || cbf_cb || cbf_cr);
        lemma_before_luma::<B>(env, st, cbf_luma || cbf_cb || cbf_cr);
        let o2 = ctu::luma_part::<B>(env, o1.0, x, y, log2, cbf_luma);
        lemma_luma_adds::<B>(env, o1.0, x, y, log2, cbf_luma);
        let i = env.cu.intra;
        if log2 > 2 {
            lemma_chroma_adds::<B>(env, o2.0, x, y, log2 - 1, cbf_cb, cbf_cr);
            lemma_adds_all(st.ops, o2.0.ops, o.0.ops, cbf_luma, cbf_cb, cbf_cr, i, i);
        } else if blk_idx == 3 {
            lemma_chroma_adds::<B>(env, o2.0, xbase, ybase, 2, cbf_cb, cbf_cr);
            lemma_adds_all(st.ops, o2.0.ops, o.0.ops, cbf_luma, cbf_cb, cbf_cr, i, i);
        } else {
            lemma_adds_nothing(o2.0.ops, counts(false, false, false), 1, 2);
            lemma_adds_all(st.ops, o2.0.ops, o.0.ops, cbf_luma, false, false, i, false);
        }
    }
}

/// The state in which a unit's luma part is read.
spec fn before_luma<B: BinDecoder>(env: TreeEnv, st: TuState<B::State>, any: bool) -> Outcome<
    B::State,
> {
    if any && env.pps.cu_qp_delta_enabled && !st.delta_coded {
        ctu::with_delta::<B>(env, st)
    } else {
        (st, None)
    }
}

proof fn lemma_before_luma<B: BinDecoder>(env: TreeEnv, st: TuState<B::State>, any: bool)
    ensures
        before_luma::<B>(env, st, any).0.ops == st.ops,
{
}

proof fn lemma_adds_all(
    b: Seq<TuStep>,
    m: Seq<TuStep>,
    a: Seq<TuStep>,
    luma: bool,
    cb: bool,
    cr: bool,
    intra: bool,
    intra_chroma: bool,
)
    requires
        adds(b, m, only(0, one_if(luma)), only(0, one_if(intra)), 0, 0),
        adds(m, a, counts(false, cb, cr), counts(false, intra_chroma, intra_chroma), 1, 2),
    ensures
        adds(b, a, counts(luma, cb, cr), counts(intra, intra_chroma, intra_chroma), 0, 2),
{
    let r2 = counts(false, cb, cr);
    let p2 = counts(false, intra_chroma, intra_chroma);
    lemma_adds_wider(m, a, r2, p2, 1, 2, 0, 2);
    lemma_adds_joined(
        b,
        m,
        a,
        only(0, one_if(luma)),
        only(0, one_if(intra)),
        r2,
        p2,
        counts(luma, cb, cr),
        counts(intra, intra_chroma, intra_chroma),
        0,
        0,
        2,
    );
}

/// A change of the quantization parameter is read with the first unit that has a
/// residual of any component, and with no other: a unit without one leaves the
/// state of the change as it was.
pub proof fn lemma_change_comes_with_first_residual<B: BinDecoder>(
    env: TreeEnv,
    st: TuState<B::State>,
    x: int,
    y: int,
    xbase: int,
    ybase: int,
    log2: int,
    blk_idx: int,
    cbf_luma: bool,
    cbf_cb: bool,
    cbf_cr: bool,
)
    ensures
        ({
            let o = ctu::unit::<B>(
                env,
                st,
                x,
                y,
                xbase,
                ybase,
                log2,
                blk_idx,
                cbf_luma,
                cbf_cb,
                cbf_cr,
            );
            let any = cbf_luma || cbf_cb || cbf_cr;
            o.1 is None ==> {
                &&& o.0.delta_coded == (st.delta_coded || any && env.pps.cu_qp_delta_enabled)
                &&& st.delta_coded || !any || !env.pps.cu_qp_delta_enabled ==> o.0.qp_y == st.qp_y
                    && o.0.delta == st.delta && o.0.qp_map == st.qp_map
            }
        }),
{
}

/// The quantization parameter after a change is the predicted one plus the
/// change, up to a whole number of turns of its range, and in that range.
pub proof fn lemma_change_is_added(qp: int, off: int)
    requires
        off >= 0,
    ensures
        -off <= ctu::wrapped_qp(qp, off) <= 51,
        (ctu::wrapped_qp(qp, off) - qp) % (52 + off) == 0,
        -off <= qp <= 51 ==> ctu::wrapped_qp(qp, off) == qp,
{
    let m = 52 + off;
    let a = qp + 52 + 2 * off;
    lemma_mod_bound(a, m);
    lemma_fundamental_div_mod(a, m);
    let r = a % m;
    assert(ctu::wrapped_qp(qp, off) - qp == m * (1 - a / m)) by (nonlinear_arith)
        requires
            a == m * (a / m) + r,
            a == qp + 52 + 2 * off,
            m == 52 + off,
            ctu::wrapped_qp(qp, off) == r - off,
    ;
    lemma_mod_multiples_basic(1 - a / m, m);
    assert(m * (1 - a / m) == (1 - a / m) * m) by (nonlinear_arith);
    if -off <= qp <= 51 {
        lemma_small_mod((qp + off) as nat, m as nat);
        lemma_mod_add_multiples_vanish(qp + off, m);
    }
}

/// A residual step, and no other, asks for a residual: that of its own block and
/// component, with its own parameter, in the unit and slice that it stands in.
pub proof fn lemma_step_asks(op: TuOp, cu: CodingUnit, sh: SliceHeader)
    ensures
        op is Predict <==> op.asks(cu, sh) is None,
        op matches TuOp::Residual { log2, c, qp_y, block, .. } ==> (op.asks(cu, sh) matches Some(r)
            && {
            &&& r.log2 == log2 && r.c_idx == c && r.qp_y == qp_y
            &&& r.transform_skip == block.transform_skip
            &&& r.nz_w == block.nz_w && r.nz_h == block.nz_h
            &&& r.cu_intra == cu.intra && r.bypass == cu.transquant_bypass
            &&& r.slice_cb_qp_offset == sh.cb_qp_offset
            &&& r.slice_cr_qp_offset == sh.cr_qp_offset
        }),
{
}

} // verus!
