//! The rules a set of registers must keep: register names are distinct, and
//! within a register field names are distinct and bit ranges do not overlap.
use vstd::prelude::*;
use crate::error::{CheckError, LatchError, LatchErrorView, errors_view};
use crate::ir::{Register, spec_bits_overlap};
use crate::state::{FieldId, RegId, State};

verus! {

// ---------------------------------------------------------------------------
// Pairs

/// The pairs `(i, j)`, `i < j < j_end`, for which `p` holds, by increasing `j`.
pub open spec fn row_pairs(i: int, j_end: int, p: spec_fn(int, int) -> bool) -> Seq<(int, int)>
    decreases j_end - i,
{
    if j_end <= i + 1 {
        Seq::empty()
    } else {
        row_pairs(i, j_end - 1, p) + if p(i, j_end - 1) {
            seq![(i, j_end - 1)]
        } else {
            Seq::empty()
        }
    }
}

/// The pairs `(i, j)`, `i < m`, `i < j < n`, for which `p` holds, in
/// lexicographic order.
pub open spec fn all_pairs(m: int, n: int, p: spec_fn(int, int) -> bool) -> Seq<(int, int)>
    decreases m,
{
    if m <= 0 {
        Seq::empty()
    } else {
        all_pairs(m - 1, n, p) + row_pairs(m - 1, n, p)
    }
}

pub proof fn lemma_row_pairs(i: int, j_end: int, p: spec_fn(int, int) -> bool)
    ensures
        forall|x: (int, int)| #[trigger] row_pairs(i, j_end, p).contains(x) <==> (x.0 == i && i < x.1 < j_end && p(x.0, x.1)),
    decreases j_end - i,
{
    if j_end > i + 1 {
        lemma_row_pairs(i, j_end - 1, p);
        let tail = if p(i, j_end - 1) {
            seq![(i, j_end - 1)]
        } else {
            Seq::<(int, int)>::empty()
        };
        assert forall|x: (int, int)| #[trigger] row_pairs(i, j_end, p).contains(x) <==> (x.0 == i && i < x.1 < j_end && p(x.0, x.1)) by {
            let s = row_pairs(i, j_end - 1, p) + tail;
            if s.contains(x) {
                let k = choose|k: int| 0 <= k < s.len() && #[trigger] s[k] == x;
                if k >= row_pairs(i, j_end - 1, p).len() {
                    assert(tail[k - row_pairs(i, j_end - 1, p).len()] == x);
                } else {
                    assert(row_pairs(i, j_end - 1, p).contains(x));
                }
            }
            if x.0 == i && i < x.1 < j_end && p(x.0, x.1) {
                if x.1 < j_end - 1 {
                    assert(row_pairs(i, j_end - 1, p).contains(x));
                    let k = choose|k: int| 0 <= k < row_pairs(i, j_end - 1, p).len() && #[trigger] row_pairs(i, j_end - 1, p)[k] == x;
                    assert(s[k] == x);
                } else {
                    assert(s[row_pairs(i, j_end - 1, p).len() as int] == x);
                }
            }
        }
    } else {
        assert forall|x: (int, int)| #[trigger] row_pairs(i, j_end, p).contains(x) <==> (x.0 == i && i < x.1 < j_end && p(x.0, x.1)) by {
        }
    }
}

/// A pair is listed exactly when it is in range and `p` holds of it.
pub proof fn lemma_all_pairs(m: int, n: int, p: spec_fn(int, int) -> bool)
    ensures
        forall|x: (int, int)| #[trigger] all_pairs(m, n, p).contains(x) <==> (0 <= x.0 < m && x.0 < x.1 < n && p(x.0, x.1)),
    decreases m,
{
    if m > 0 {
        lemma_all_pairs(m - 1, n, p);
        lemma_row_pairs(m - 1, n, p);
        let a = all_pairs(m - 1, n, p);
        let b = row_pairs(m - 1, n, p);
        assert forall|x: (int, int)| #[trigger] all_pairs(m, n, p).contains(x) <==> (0 <= x.0 < m && x.0 < x.1 < n && p(x.0, x.1)) by {
            let s = a + b;
            if s.contains(x) {
                let k = choose|k: int| 0 <= k < s.len() && #[trigger] s[k] == x;
                if k >= a.len() {
                    assert(b[k - a.len()] == x);
                    assert(b.contains(x));
                } else {
                    assert(a[k] == x);
                    assert(a.contains(x));
                }
            }
            if 0 <= x.0 < m && x.0 < x.1 < n && p(x.0, x.1) {
                if x.0 < m - 1 {
                    assert(a.contains(x));
                    let k = choose|k: int| 0 <= k < a.len() && #[trigger] a[k] == x;
                    assert(s[k] == x);
                } else {
                    assert(b.contains(x));
                    let k = choose|k: int| 0 <= k < b.len() && #[trigger] b[k] == x;
                    assert(s[a.len() + k] == x);
                }
            }
        }
    } else {
        assert forall|x: (int, int)| #[trigger] all_pairs(m, n, p).contains(x) <==> (0 <= x.0 < m && x.0 < x.1 < n && p(x.0, x.1)) by {
        }
    }
}

// ---------------------------------------------------------------------------
// The three rules

/// Two fields of a register, by position, overlap.
pub open spec fn overlap_pred(st: State, ids: Seq<FieldId>) -> spec_fn(int, int) -> bool {
    |i: int, j: int| spec_bits_overlap(st.field_map()[ids[i].0].bits, st.field_map()[ids[j].0].bits)
}

/// Two fields of a register, by position, have the same name.
pub open spec fn field_name_pred(st: State, ids: Seq<FieldId>) -> spec_fn(int, int) -> bool {
    |i: int, j: int| st.field_map()[ids[i].0].name@ == st.field_map()[ids[j].0].name@
}

/// Two registers, by position, have the same name.
pub open spec fn reg_name_pred(st: State, ids: Seq<RegId>) -> spec_fn(int, int) -> bool {
    |i: int, j: int| st.regs()[ids[i].0]@.name == st.regs()[ids[j].0]@.name
}

pub open spec fn overlap_errors(st: State, ids: Seq<FieldId>) -> Seq<CheckError> {
    all_pairs(ids.len() as int, ids.len() as int, overlap_pred(st, ids)).map_values(
        |x: (int, int)| CheckError::FieldOverlap { first: ids[x.0], other: ids[x.1] },
    )
}

pub open spec fn field_name_errors(st: State, ids: Seq<FieldId>) -> Seq<CheckError> {
    all_pairs(ids.len() as int, ids.len() as int, field_name_pred(st, ids)).map_values(
        |x: (int, int)| CheckError::FieldNameCollision { first: ids[x.0], other: ids[x.1] },
    )
}

pub open spec fn reg_name_errors(st: State, ids: Seq<RegId>) -> Seq<CheckError> {
    all_pairs(ids.len() as int, ids.len() as int, reg_name_pred(st, ids)).map_values(
        |x: (int, int)| CheckError::RegNameCollision { first: ids[x.0], other: ids[x.1] },
    )
}

/// The fields of a register are all stored.
pub open spec fn fields_stored(st: State, ids: Seq<FieldId>) -> bool {
    forall|i: int| 0 <= i < ids.len() ==> st.field_map().dom().contains(#[trigger] ids[i].0)
}

/// The registers, and all their fields, are stored.
pub open spec fn regs_stored(st: State, ids: Seq<RegId>) -> bool {
    forall|i: int|
        0 <= i < ids.len() ==> st.regs().dom().contains(#[trigger] ids[i].0) && fields_stored(
            st,
            st.regs()[ids[i].0]@.fields,
        )
}

/// Every pair of fields of `reg` whose bit ranges overlap, in order.
pub fn check_field_overlap(state: &State, reg: &Register) -> (r: Result<(), Vec<CheckError>>)
    requires
        fields_stored(*state, reg@.fields),
    ensures
        match r {
            Ok(()) => overlap_errors(*state, reg@.fields).len() == 0,
            Err(errs) => errs@ == overlap_errors(*state, reg@.fields) && errs@.len() > 0,
        },
{
    let fields = reg.get_fields();
    let n = fields.len();
    let ghost ids = reg@.fields;
    let ghost p = overlap_pred(*state, ids);
    let ghost f = |x: (int, int)| CheckError::FieldOverlap { first: ids[x.0], other: ids[x.1] };
    let mut errs: Vec<CheckError> = Vec::new();
    let mut i: usize = 0;
    assert(errs@ =~= all_pairs(0, n as int, p).map_values(f));
    while i < n
        invariant
            fields@ == ids,
            n == ids.len(),
            fields_stored(*state, ids),
            p == overlap_pred(*state, ids),
            f == (|x: (int, int)| CheckError::FieldOverlap { first: ids[x.0], other: ids[x.1] }),
            i <= n,
            errs@ == all_pairs(i as int, n as int, p).map_values(f),
        decreases n - i,
    {
        let field_a = state.get_field(fields[i]);
        let mut j: usize = i + 1;
        assert(row_pairs(i as int, j as int, p) =~= Seq::<(int, int)>::empty());
        assert(errs@ =~= (all_pairs(i as int, n as int, p) + row_pairs(i as int, j as int, p)).map_values(f));
        while j < n
            invariant
                fields@ == ids,
                n == ids.len(),
                fields_stored(*state, ids),
                p == overlap_pred(*state, ids),
                f == (|x: (int, int)| CheckError::FieldOverlap { first: ids[x.0], other: ids[x.1] }),
                i < n,
                i + 1 <= j <= n,
                *field_a == state.field_map()[ids[i as int].0],
                errs@ == (all_pairs(i as int, n as int, p) + row_pairs(i as int, j as int, p)).map_values(f),
            decreases n - j,
        {
            let field_b = state.get_field(fields[j]);
            let ghost before = all_pairs(i as int, n as int, p) + row_pairs(i as int, j as int, p);
            assert(row_pairs(i as int, j + 1, p) == row_pairs(i as int, j as int, p) + if p(i as int, j as int) {
                seq![(i as int, j as int)]
            } else {
                Seq::<(int, int)>::empty()
            });
            if field_a.bits_overlap(field_b) {
                errs.push(CheckError::FieldOverlap { first: fields[i], other: fields[j] });
                assert(errs@ =~= (before + seq![(i as int, j as int)]).map_values(f));
                assert(before + seq![(i as int, j as int)] =~= all_pairs(i as int, n as int, p) + row_pairs(i as int, j + 1, p));
            } else {
                assert(before =~= all_pairs(i as int, n as int, p) + row_pairs(i as int, j + 1, p));
            }
            j = j + 1;
        }
        i = i + 1;
    }
    if errs.len() == 0 {
        Ok(())
    } else {
        Err(errs)
    }
}

/// Every pair of fields of `reg` that have the same name, in order.
pub fn check_field_name_collision(state: &State, reg: &Register) -> (r: Result<(), Vec<CheckError>>)
    requires
        fields_stored(*state, reg@.fields),
    ensures
        match r {
            Ok(()) => field_name_errors(*state, reg@.fields).len() == 0,
            Err(errs) => errs@ == field_name_errors(*state, reg@.fields) && errs@.len() > 0,
        },
{
    let fields = reg.get_fields();
    let n = fields.len();
    let ghost ids = reg@.fields;
    let ghost p = field_name_pred(*state, ids);
    let ghost f = |x: (int, int)| CheckError::FieldNameCollision { first: ids[x.0], other: ids[x.1] };
    let mut errs: Vec<CheckError> = Vec::new();
    let mut i: usize = 0;
    assert(errs@ =~= all_pairs(0, n as int, p).map_values(f));
    while i < n
        invariant
            fields@ == ids,
            n == ids.len(),
            fields_stored(*state, ids),
            p == field_name_pred(*state, ids),
            f == (|x: (int, int)| CheckError::FieldNameCollision { first: ids[x.0], other: ids[x.1] }),
            i <= n,
            errs@ == all_pairs(i as int, n as int, p).map_values(f),
        decreases n - i,
    {
        let field_a = state.get_field(fields[i]);
        let mut j: usize = i + 1;
        assert(row_pairs(i as int, j as int, p) =~= Seq::<(int, int)>::empty());
        assert(errs@ =~= (all_pairs(i as int, n as int, p) + row_pairs(i as int, j as int, p)).map_values(f));
        while j < n
            invariant
                fields@ == ids,
                n == ids.len(),
                fields_stored(*state, ids),
                p == field_name_pred(*state, ids),
                f == (|x: (int, int)| CheckError::FieldNameCollision { first: ids[x.0], other: ids[x.1] }),
                i < n,
                i + 1 <= j <= n,
                *field_a == state.field_map()[ids[i as int].0],
                errs@ == (all_pairs(i as int, n as int, p) + row_pairs(i as int, j as int, p)).map_values(f),
            decreases n - j,
        {
            let field_b = state.get_field(fields[j]);
            let ghost before = all_pairs(i as int, n as int, p) + row_pairs(i as int, j as int, p);
            assert(row_pairs(i as int, j + 1, p) == row_pairs(i as int, j as int, p) + if p(i as int, j as int) {
                seq![(i as int, j as int)]
            } else {
                Seq::<(int, int)>::empty()
            });
            if field_a.name == field_b.name {
                errs.push(CheckError::FieldNameCollision { first: fields[i], other: fields[j] });
                assert(errs@ =~= (before + seq![(i as int, j as int)]).map_values(f));
                assert(before + seq![(i as int, j as int)] =~= all_pairs(i as int, n as int, p) + row_pairs(i as int, j + 1, p));
            } else {
                assert(before =~= all_pairs(i as int, n as int, p) + row_pairs(i as int, j + 1, p));
            }
            j = j + 1;
        }
        i = i + 1;
    }
    if errs.len() == 0 {
        Ok(())
    } else {
        Err(errs)
    }
}

/// Every pair of registers that have the same name, in order.
pub fn check_reg_name_collisions(state: &State, reg_ids: &[RegId]) -> (r: Result<(), Vec<CheckError>>)
    requires
        forall|i: int| 0 <= i < reg_ids@.len() ==> state.regs().dom().contains(#[trigger] reg_ids@[i].0),
    ensures
        match r {
            Ok(()) => reg_name_errors(*state, reg_ids@).len() == 0,
            Err(errs) => errs@ == reg_name_errors(*state, reg_ids@) && errs@.len() > 0,
        },
{
    let n = reg_ids.len();
    let ghost ids = reg_ids@;
    let ghost p = reg_name_pred(*state, ids);
    let ghost f = |x: (int, int)| CheckError::RegNameCollision { first: ids[x.0], other: ids[x.1] };
    let mut errs: Vec<CheckError> = Vec::new();
    let mut i: usize = 0;
    assert(errs@ =~= all_pairs(0, n as int, p).map_values(f));
    while i < n
        invariant
            reg_ids@ == ids,
            n == ids.len(),
            forall|k: int| 0 <= k < ids.len() ==> state.regs().dom().contains(#[trigger] ids[k].0),
            p == reg_name_pred(*state, ids),
            f == (|x: (int, int)| CheckError::RegNameCollision { first: ids[x.0], other: ids[x.1] }),
            i <= n,
            errs@ == all_pairs(i as int, n as int, p).map_values(f),
        decreases n - i,
    {
        let reg_a = state.get_reg(reg_ids[i]);
        let mut j: usize = i + 1;
        assert(row_pairs(i as int, j as int, p) =~= Seq::<(int, int)>::empty());
        assert(errs@ =~= (all_pairs(i as int, n as int, p) + row_pairs(i as int, j as int, p)).map_values(f));
        while j < n
            invariant
                reg_ids@ == ids,
                n == ids.len(),
                forall|k: int| 0 <= k < ids.len() ==> state.regs().dom().contains(#[trigger] ids[k].0),
                p == reg_name_pred(*state, ids),
                f == (|x: (int, int)| CheckError::RegNameCollision { first: ids[x.0], other: ids[x.1] }),
                i < n,
                i + 1 <= j <= n,
                *reg_a == state.regs()[ids[i as int].0],
                errs@ == (all_pairs(i as int, n as int, p) + row_pairs(i as int, j as int, p)).map_values(f),
            decreases n - j,
        {
            let reg_b = state.get_reg(reg_ids[j]);
            let ghost before = all_pairs(i as int, n as int, p) + row_pairs(i as int, j as int, p);
            assert(row_pairs(i as int, j + 1, p) == row_pairs(i as int, j as int, p) + if p(i as int, j as int) {
                seq![(i as int, j as int)]
            } else {
                Seq::<(int, int)>::empty()
            });
            if *reg_a.get_name() == *reg_b.get_name() {
                errs.push(CheckError::RegNameCollision { first: reg_ids[i], other: reg_ids[j] });
                assert(errs@ =~= (before + seq![(i as int, j as int)]).map_values(f));
                assert(before + seq![(i as int, j as int)] =~= all_pairs(i as int, n as int, p) + row_pairs(i as int, j + 1, p));
            } else {
                assert(before =~= all_pairs(i as int, n as int, p) + row_pairs(i as int, j + 1, p));
            }
            j = j + 1;
        }
        i = i + 1;
    }
    if errs.len() == 0 {
        Ok(())
    } else {
        Err(errs)
    }
}

/// The field errors of the first `k` registers, register by register:
/// overlaps, then name collisions.
pub open spec fn per_reg_errors(st: State, ids: Seq<RegId>, k: int) -> Seq<CheckError>
    decreases k,
{
    if k <= 0 {
        Seq::empty()
    } else {
        let fields = st.regs()[ids[k - 1].0]@.fields;
        per_reg_errors(st, ids, k - 1) + overlap_errors(st, fields) + field_name_errors(st, fields)
    }
}

/// Every rule that the registers break: register name collisions first,
/// then each register's field overlaps and field name collisions.
pub open spec fn spec_check_errors(st: State, ids: Seq<RegId>) -> Seq<CheckError> {
    reg_name_errors(st, ids) + per_reg_errors(st, ids, ids.len() as int)
}

pub open spec fn check_errors_view(v: Seq<CheckError>) -> Seq<LatchErrorView> {
    v.map_values(|e: CheckError| LatchErrorView::Check(e))
}

/// Checks the registers; every rule they break, in order, or `Ok`.
pub fn check_registers(regs: &[RegId], state: &State) -> (r: Result<(), Vec<LatchError>>)
    requires
        regs_stored(*state, regs@),
    ensures
        match r {
            Ok(()) => spec_check_errors(*state, regs@).len() == 0,
            Err(errs) => errors_view(errs@) == check_errors_view(spec_check_errors(*state, regs@))
                && errs@.len() > 0,
        },
{
    let ghost ids = regs@;
    let mut accum: Vec<CheckError> = match check_reg_name_collisions(state, regs) {
        Ok(()) => Vec::new(),
        Err(errs) => errs,
    };
    let mut k: usize = 0;
    assert(accum@ =~= reg_name_errors(*state, ids) + per_reg_errors(*state, ids, 0));
    while k < regs.len()
        invariant
            regs@ == ids,
            regs_stored(*state, ids),
            k <= ids.len(),
            accum@ == reg_name_errors(*state, ids) + per_reg_errors(*state, ids, k as int),
        decreases ids.len() - k,
    {
        let reg = state.get_reg(regs[k]);
        let ghost before = accum@;
        if let Err(errs) = check_field_overlap(state, reg) {
            let mut e = errs;
            accum.append(&mut e);
        }
        let ghost mid = accum@;
        assert(mid =~= before + overlap_errors(*state, reg@.fields));
        if let Err(errs) = check_field_name_collision(state, reg) {
            let mut e = errs;
            accum.append(&mut e);
        }
        assert(accum@ =~= mid + field_name_errors(*state, reg@.fields));
        k = k + 1;
        assert(accum@ =~= reg_name_errors(*state, ids) + per_reg_errors(*state, ids, k as int));
    }
    if accum.len() > 0 {
        let mut out: Vec<LatchError> = Vec::new();
        let mut i: usize = 0;
        while i < accum.len()
            invariant
                i <= accum@.len(),
                errors_view(out@) == check_errors_view(accum@.take(i as int)),
            decreases accum@.len() - i,
        {
            let ghost before = errors_view(out@);
            out.push(LatchError::Check(accum[i]));
            assert(errors_view(out@) =~= before.push(LatchErrorView::Check(accum@[i as int])));
            i = i + 1;
            assert(check_errors_view(accum@.take(i as int)) =~= check_errors_view(accum@.take(i - 1)).push(
                LatchErrorView::Check(accum@[i - 1]),
            ));
        }
        assert(accum@.take(accum@.len() as int) =~= accum@);
        Err(out)
    } else {
        Ok(())
    }
}

// ---------------------------------------------------------------------------
// What checking means

/// Whether `p` holds of `(i, j)`.
pub open spec fn holds_at(p: spec_fn(int, int) -> bool, i: int, j: int) -> bool {
    p(i, j)
}

/// Fields `i` and `j` of a register neither overlap nor share a name.
pub open spec fn fields_pair_ok(st: State, fields: Seq<FieldId>, i: int, j: int) -> bool {
    !holds_at(overlap_pred(st, fields), i, j) && !holds_at(field_name_pred(st, fields), i, j)
}

/// The registers keep every rule: no two share a name, and in each no two
/// fields share a name or a bit.
pub open spec fn registers_valid(st: State, ids: Seq<RegId>) -> bool {
    &&& forall|i: int, j: int| 0 <= i < j < ids.len() ==> !(#[trigger] holds_at(reg_name_pred(st, ids), i, j))
    &&& forall|r: int|
        0 <= r < ids.len() ==> {
            let fields = #[trigger] st.regs()[ids[r].0]@.fields;
            forall|i: int, j: int| 0 <= i < j < fields.len() ==> #[trigger] fields_pair_ok(st, fields, i, j)
        }
}

proof fn lemma_all_pairs_empty(n: int, p: spec_fn(int, int) -> bool)
    ensures
        all_pairs(n, n, p).len() == 0 <==> forall|i: int, j: int| 0 <= i < j < n ==> !#[trigger] holds_at(p, i, j),
{
    lemma_all_pairs(n, n, p);
    if all_pairs(n, n, p).len() != 0 {
        let x = all_pairs(n, n, p)[0];
        assert(all_pairs(n, n, p).contains(x));
        assert(holds_at(p, x.0, x.1));
    }
    if exists|i: int, j: int| 0 <= i < j < n && #[trigger] holds_at(p, i, j) {
        let (i, j) = choose|i: int, j: int| 0 <= i < j < n && #[trigger] holds_at(p, i, j);
        assert(all_pairs(n, n, p).contains((i, j)));
    }
}

proof fn lemma_per_reg_errors_empty(st: State, ids: Seq<RegId>, k: int)
    requires
        0 <= k <= ids.len(),
    ensures
        per_reg_errors(st, ids, k).len() == 0 <==> forall|r: int|
            0 <= r < k ==> {
                let fields = #[trigger] st.regs()[ids[r].0]@.fields;
                overlap_errors(st, fields).len() == 0 && field_name_errors(st, fields).len() == 0
            },
    decreases k,
{
    if k > 0 {
        lemma_per_reg_errors_empty(st, ids, k - 1);
    }
}

/// Checking finds nothing exactly when the registers keep every rule: no
/// two share a name, and in each no two fields share a name or a bit. Each
/// error names a pair that breaks a rule; each such pair is reported.
pub proof fn lemma_check_ok_iff_valid(st: State, ids: Seq<RegId>)
    ensures
        spec_check_errors(st, ids).len() == 0 <==> registers_valid(st, ids),
{
    let n = ids.len() as int;
    lemma_all_pairs_empty(n, reg_name_pred(st, ids));
    lemma_per_reg_errors_empty(st, ids, n);
    assert forall|r: int| 0 <= r < n implies {
        let fields = #[trigger] st.regs()[ids[r].0]@.fields;
        (overlap_errors(st, fields).len() == 0 && field_name_errors(st, fields).len() == 0) <==> forall|i: int, j: int|
            0 <= i < j < fields.len() ==> #[trigger] fields_pair_ok(st, fields, i, j)
    } by {
        let fields = st.regs()[ids[r].0]@.fields;
        let m = fields.len() as int;
        lemma_all_pairs_empty(m, overlap_pred(st, fields));
        lemma_all_pairs_empty(m, field_name_pred(st, fields));
        if overlap_errors(st, fields).len() == 0 && field_name_errors(st, fields).len() == 0 {
            assert forall|i: int, j: int| 0 <= i < j < fields.len() implies #[trigger] fields_pair_ok(st, fields, i, j) by {
            }
        }
        if forall|i: int, j: int| 0 <= i < j < fields.len() ==> #[trigger] fields_pair_ok(st, fields, i, j) {
            assert forall|i: int, j: int| 0 <= i < j < m implies !#[trigger] holds_at(overlap_pred(st, fields), i, j) by {
                assert(fields_pair_ok(st, fields, i, j));
            }
            assert forall|i: int, j: int| 0 <= i < j < m implies !#[trigger] holds_at(field_name_pred(st, fields), i, j) by {
                assert(fields_pair_ok(st, fields, i, j));
            }
        }
    }
}

/// Every reported field overlap names two fields of the register, the first
/// before the other, whose bit ranges overlap; and every such pair is reported.
pub proof fn lemma_overlap_errors_exact(st: State, ids: Seq<FieldId>, a: int, b: int)
    ensures
        all_pairs(ids.len() as int, ids.len() as int, overlap_pred(st, ids)).contains((a, b)) <==> (0 <= a < b
            < ids.len() && spec_bits_overlap(st.field_map()[ids[a].0].bits, st.field_map()[ids[b].0].bits)),
{
    lemma_all_pairs(ids.len() as int, ids.len() as int, overlap_pred(st, ids));
}

} // verus!
