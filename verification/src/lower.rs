//! Lowering annotations to registers and fields.
//!
//! Annotations are read in order. A `@reg` annotation opens a register; the
//! `@field` annotations on the lines right after it add fields to it. A
//! register is stored when the next `@reg` annotation comes or the input
//! ends. Errors are collected, not fatal: after one, lowering goes on.
use vstd::prelude::*;
use crate::error::{LatchError, LatchErrorView, LoweringError, ParseError, errors_view};
use crate::ir::{
    Field, FieldView, Register, field_kv_panics, spec_field_from_kv, spec_field_kv_panics, spec_field_stop_message,
    spec_register_from_kv, spec_register_kv_panics, spec_register_stop_message,
};
use crate::kv::{KvError, KvErrorKind, KvPair, KvPairView, kv_message, pairs_view};
use crate::scanner::{AnnotationKind, RawAnnotationView, spec_pre_offset};
use crate::source_map::FileId;
use crate::state::{FieldId, Location, RegId, State};

verus! {

/// A field as lowering produces it, with its line.
pub struct FieldModel {
    pub field: FieldView,
    pub line: int,
}

/// A register as lowering produces it: its header, its fields in order and
/// its line.
pub struct RegModel {
    pub offset: u64,
    pub name: Seq<char>,
    pub description: Option<Seq<char>>,
    pub fields: Seq<FieldModel>,
    pub line: int,
}

/// What lowering is doing: no register open, a register open (with the
/// number of its field annotations that failed), or skipping the fields of
/// a register that failed.
pub enum ModeModel {
    Empty,
    Active { reg: RegModel, failed: int },
    Failed,
}

/// The state of lowering: mode, registers stored so far, errors so far,
/// whether the program would have stopped on an ill-typed annotation, and
/// if so, what it would have said.
pub struct LowerModel {
    pub mode: ModeModel,
    pub regs: Seq<RegModel>,
    pub errors: Seq<LatchErrorView>,
    pub panics: bool,
    pub stop_message: Seq<char>,
}

pub open spec fn initial_model() -> LowerModel {
    LowerModel {
        mode: ModeModel::Empty,
        regs: Seq::empty(),
        errors: Seq::empty(),
        panics: false,
        stop_message: Seq::empty(),
    }
}

pub open spec fn msg_no_fields() -> Seq<char> {
    "Registers require at least one @field."@
}

pub open spec fn msg_lone_field() -> Seq<char> {
    "field annotation must follow a reg annotation"@
}

pub open spec fn msg_not_adjacent() -> Seq<char> {
    "field annotation must immediately follow a reg or field annotation"@
}

pub open spec fn lowering_error(message: Seq<char>, line: int, file: FileId) -> LatchErrorView {
    LatchErrorView::Lowering { message, line, file }
}

/// `a - b`, or 0 where that is negative.
pub open spec fn sat_sub(a: int, b: int) -> int {
    if a > b {
        a - b
    } else {
        0
    }
}

/// Stores the open register, if any, reporting it if it has no field and
/// none of its field annotations failed; leaves no register open.
pub open spec fn spec_flush(m: LowerModel, file: FileId) -> LowerModel {
    match m.mode {
        ModeModel::Active { reg, failed } => LowerModel {
            mode: ModeModel::Empty,
            regs: m.regs.push(reg),
            errors: if reg.fields.len() == 0 && failed == 0 {
                m.errors.push(lowering_error(msg_no_fields(), reg.line, file))
            } else {
                m.errors
            },
            panics: m.panics,
            stop_message: m.stop_message,
        },
        _ => LowerModel { mode: ModeModel::Empty, ..m },
    }
}

/// An annotation whose key/value list has a syntax error. The error's span
/// starts at the line column of the error's start (the content column plus
/// its position in the content) and ends at the error's end position, as
/// counted in the content alone.
pub open spec fn spec_on_parse_error(
    m: LowerModel,
    kind: AnnotationKind,
    line: int,
    err: (KvErrorKind, int, int),
    file: FileId,
) -> LowerModel {
    let e = LatchErrorView::Parse {
        message: kv_message(err.0),
        line,
        start: spec_pre_offset(kind) + err.1,
        end: err.2,
        file,
    };
    let m1 = LowerModel { errors: m.errors.push(e), ..m };
    match kind {
        AnnotationKind::Reg => LowerModel { mode: ModeModel::Failed, ..m1 },
        AnnotationKind::Field => match m.mode {
            ModeModel::Active { reg, failed } => LowerModel {
                mode: ModeModel::Active { reg, failed: failed + 1 },
                ..m1
            },
            _ => m1,
        },
    }
}

/// A register annotation with these pairs.
pub open spec fn spec_on_reg(m: LowerModel, ps: Seq<KvPairView>, line: int, file: FileId) -> LowerModel {
    let m1 = spec_flush(m, file);
    if spec_register_kv_panics(ps) {
        LowerModel { panics: true, stop_message: spec_register_stop_message(ps), ..m1 }
    } else {
        match spec_register_from_kv(ps) {
            Ok((offset, name, description)) => LowerModel {
                mode: ModeModel::Active {
                    reg: RegModel { offset, name, description, fields: Seq::empty(), line },
                    failed: 0,
                },
                ..m1
            },
            Err(message) => LowerModel {
                mode: ModeModel::Failed,
                errors: m1.errors.push(lowering_error(message, line, file)),
                ..m1
            },
        }
    }
}

/// A field annotation with these pairs.
pub open spec fn spec_on_field(m: LowerModel, ps: Seq<KvPairView>, line: int, file: FileId) -> LowerModel {
    match m.mode {
        ModeModel::Empty => LowerModel {
            errors: m.errors.push(lowering_error(msg_lone_field(), line, file)),
            ..m
        },
        ModeModel::Failed => m,
        ModeModel::Active { reg, failed } => if sat_sub(line, reg.line + reg.fields.len() + failed) != 1 {
            LowerModel { errors: m.errors.push(lowering_error(msg_not_adjacent(), line, file)), ..m }
        } else if spec_field_kv_panics(ps) {
            LowerModel { panics: true, stop_message: spec_field_stop_message(ps), ..m }
        } else {
            match spec_field_from_kv(ps) {
                Ok(f) => LowerModel {
                    mode: ModeModel::Active {
                        reg: RegModel { fields: reg.fields.push(FieldModel { field: f, line }), ..reg },
                        failed,
                    },
                    ..m
                },
                Err(message) => LowerModel {
                    mode: ModeModel::Active { reg, failed: failed + 1 },
                    errors: m.errors.push(lowering_error(message, line, file)),
                    ..m
                },
            }
        },
    }
}

/// One annotation. After the program would have stopped, nothing changes.
pub open spec fn spec_lower_step(m: LowerModel, a: RawAnnotationView, file: FileId) -> LowerModel {
    if m.panics {
        m
    } else {
        match crate::kv::spec_parse_kv(a.content) {
            Err(err) => spec_on_parse_error(m, a.kind, a.line, err, file),
            Ok(ps) => match a.kind {
                AnnotationKind::Reg => spec_on_reg(m, ps, a.line, file),
                AnnotationKind::Field => spec_on_field(m, ps, a.line, file),
            },
        }
    }
}

/// The annotations, in order, from the initial state.
pub open spec fn spec_lower_all(anns: Seq<RawAnnotationView>, file: FileId) -> LowerModel
    decreases anns.len(),
{
    if anns.len() == 0 {
        initial_model()
    } else {
        spec_lower_step(spec_lower_all(anns.drop_last(), file), anns.last(), file)
    }
}

/// A field annotation on the line right after a field annotation of the
/// open register is never reported as out of place, whether that one was
/// stored or failed: after a field annotation in its place on line `line`,
/// one on line `line + 1` is stored in the same register when its pairs
/// describe a field, and is otherwise reported with the error its own pairs
/// give, on its own line.
pub proof fn lemma_consecutive_fields(m: LowerModel, ps: Seq<KvPairView>, qs: Seq<KvPairView>, line: int, file: FileId)
    requires
        m.mode is Active,
        line == m.mode->reg.line + m.mode->reg.fields.len() + m.mode->failed + 1,
        !spec_field_kv_panics(ps),
        !spec_field_kv_panics(qs),
    ensures
        ({
            let m1 = spec_on_field(m, ps, line, file);
            let m2 = spec_on_field(m1, qs, line + 1, file);
            &&& m1.mode is Active
            &&& m2.mode is Active
            &&& m2.mode->reg.line == m.mode->reg.line
            &&& match spec_field_from_kv(qs) {
                Ok(f) => m2.errors == m1.errors && m2.mode->reg.fields == m1.mode->reg.fields.push(
                    FieldModel { field: f, line: line + 1 },
                ),
                Err(message) => m2.errors == m1.errors.push(lowering_error(message, line + 1, file))
                    && m2.mode->reg.fields == m1.mode->reg.fields,
            }
        }),
{
}

/// Once the program would have stopped, nothing changes any more.
pub proof fn lemma_panics_persist(anns: Seq<RawAnnotationView>, k: int, file: FileId)
    requires
        0 <= k <= anns.len(),
        spec_lower_all(anns.take(k), file).panics,
    ensures
        spec_lower_all(anns, file) == spec_lower_all(anns.take(k), file),
    decreases anns.len() - k,
{
    if k < anns.len() {
        assert(anns.take(k + 1).drop_last() =~= anns.take(k));
        lemma_panics_persist(anns, k + 1, file);
    } else {
        assert(anns.take(k) =~= anns);
    }
}

// ---------------------------------------------------------------------------
// How the store holds the model

/// The fields with these ids are stored, with these contents and lines.
pub open spec fn fields_match(st: State, ids: Seq<FieldId>, fms: Seq<FieldModel>, file: FileId) -> bool {
    &&& ids.len() == fms.len()
    &&& forall|i: int|
        #![trigger ids[i]]
        0 <= i < ids.len() ==> {
            &&& st.field_map().dom().contains(ids[i].0)
            &&& st.field_map()[ids[i].0]@ == fms[i].field
            &&& st.field_locs().dom().contains(ids[i].0)
            &&& st.field_locs()[ids[i].0].line == fms[i].line
            &&& st.field_locs()[ids[i].0].file == file
        }
}

/// The register with this id is stored, with this content, line and fields.
pub open spec fn reg_matches(st: State, id: u64, rm: RegModel, file: FileId) -> bool {
    &&& st.regs().dom().contains(id)
    &&& st.regs()[id]@.offset == rm.offset
    &&& st.regs()[id]@.name == rm.name
    &&& st.regs()[id]@.description == rm.description
    &&& fields_match(st, st.regs()[id]@.fields, rm.fields, file)
    &&& st.reg_locs().dom().contains(id)
    &&& st.reg_locs()[id].line == rm.line
    &&& st.reg_locs()[id].file == file
}

pub proof fn lemma_fields_match_extend(old_st: State, new_st: State, ids: Seq<FieldId>, fms: Seq<FieldModel>, file: FileId)
    requires
        fields_match(old_st, ids, fms, file),
        new_st.extends(&old_st),
    ensures
        fields_match(new_st, ids, fms, file),
{
    assert forall|i: int| #![trigger ids[i]] 0 <= i < ids.len() implies {
        &&& new_st.field_map().dom().contains(ids[i].0)
        &&& new_st.field_map()[ids[i].0]@ == fms[i].field
        &&& new_st.field_locs().dom().contains(ids[i].0)
        &&& new_st.field_locs()[ids[i].0].line == fms[i].line
        &&& new_st.field_locs()[ids[i].0].file == file
    } by {
        let x = ids[i].0;
        assert(old_st.field_map().dom().contains(x));
        assert(new_st.field_map().dom().contains(x) && new_st.field_map()[x] == old_st.field_map()[x]);
        assert(old_st.field_locs().dom().contains(x));
        assert(new_st.field_locs().dom().contains(x) && new_st.field_locs()[x] == old_st.field_locs()[x]);
    }
}

pub proof fn lemma_reg_matches_extend(old_st: State, new_st: State, id: u64, rm: RegModel, file: FileId)
    requires
        reg_matches(old_st, id, rm, file),
        new_st.extends(&old_st),
    ensures
        reg_matches(new_st, id, rm, file),
{
    assert(old_st.regs().dom().contains(id));
    assert(new_st.regs().dom().contains(id) && new_st.regs()[id] == old_st.regs()[id]);
    assert(old_st.reg_locs().dom().contains(id));
    assert(new_st.reg_locs().dom().contains(id) && new_st.reg_locs()[id] == old_st.reg_locs()[id]);
    lemma_fields_match_extend(old_st, new_st, old_st.regs()[id]@.fields, rm.fields, file);
}

pub proof fn lemma_regs_match_extend(old_st: State, new_st: State, ids: Seq<RegId>, rms: Seq<RegModel>, file: FileId)
    requires
        ids.len() == rms.len(),
        forall|i: int| #![trigger ids[i]] 0 <= i < ids.len() ==> reg_matches(old_st, ids[i].0, rms[i], file),
        new_st.extends(&old_st),
    ensures
        forall|i: int| #![trigger ids[i]] 0 <= i < ids.len() ==> reg_matches(new_st, ids[i].0, rms[i], file),
{
    assert forall|i: int| #![trigger ids[i]] 0 <= i < ids.len() implies reg_matches(new_st, ids[i].0, rms[i], file) by {
        lemma_reg_matches_extend(old_st, new_st, ids[i].0, rms[i], file);
    }
}

// ---------------------------------------------------------------------------
// What lowering adds to the store

/// `k` is the id of one of the registers `ids`.
pub open spec fn reg_of(ids: Seq<RegId>, k: u64) -> bool {
    exists|i: int| 0 <= i < ids.len() && #[trigger] ids[i] == RegId(k)
}

/// `k` is the id of a field of one of the registers `ids` as `st` stores
/// them, or one of `extra`.
pub open spec fn field_of(st: State, ids: Seq<RegId>, extra: Seq<FieldId>, k: u64) -> bool {
    ||| exists|i: int, j: int|
        0 <= i < ids.len() && 0 <= j < st.regs()[ids[i].0]@.fields.len() && #[trigger] st.regs()[ids[i].0]@.fields[j]
            == FieldId(k)
    ||| exists|j: int| 0 <= j < extra.len() && #[trigger] extra[j] == FieldId(k)
}

/// Whatever `new` stores beyond `old` is one of the registers `ids`, a field
/// of one of them, or one of the fields `extra`, each with its location.
pub open spec fn only_added(old: State, new: State, ids: Seq<RegId>, extra: Seq<FieldId>) -> bool {
    &&& forall|k: u64| #[trigger] new.regs().dom().contains(k) ==> old.regs().dom().contains(k) || reg_of(ids, k)
    &&& forall|k: u64| #[trigger] new.reg_locs().dom().contains(k) ==> old.reg_locs().dom().contains(k) || reg_of(ids, k)
    &&& forall|k: u64|
        #[trigger] new.field_map().dom().contains(k) ==> old.field_map().dom().contains(k) || field_of(new, ids, extra, k)
    &&& forall|k: u64|
        #[trigger] new.field_locs().dom().contains(k) ==> old.field_locs().dom().contains(k) || field_of(new, ids, extra, k)
}

/// `new` is `old` with one more register, under the fresh id `k`, whose
/// fields are `fields` and whose location is `loc`; nothing else changed.
pub open spec fn reg_added(old: State, new: State, k: u64, loc: Location, fields: Seq<FieldId>) -> bool {
    &&& !old.regs().dom().contains(k)
    &&& new.regs() == old.regs().insert(k, new.regs()[k])
    &&& new.regs()[k]@.fields == fields
    &&& new.reg_locs() == old.reg_locs().insert(k, loc)
    &&& new.field_map() == old.field_map()
    &&& new.field_locs() == old.field_locs()
    &&& new.files() == old.files()
}

/// `new` is `old` with one more field, under the fresh id `k`, whose
/// location is `loc`; nothing else changed.
pub open spec fn field_added(old: State, new: State, k: u64, loc: Location) -> bool {
    &&& !old.field_map().dom().contains(k)
    &&& new.field_map() == old.field_map().insert(k, new.field_map()[k])
    &&& new.field_locs() == old.field_locs().insert(k, loc)
    &&& new.regs() == old.regs()
    &&& new.reg_locs() == old.reg_locs()
    &&& new.files() == old.files()
}

/// What storing the open register does to the store and to the list of
/// stored register ids: with a register open (whose fields are `open`), it
/// is added under a fresh id that ends the list; otherwise nothing changes.
pub open spec fn store_flushed(
    m: LowerModel,
    file: FileId,
    old_st: State,
    new_st: State,
    old_ids: Seq<RegId>,
    new_ids: Seq<RegId>,
    open: Seq<FieldId>,
) -> bool {
    match m.mode {
        ModeModel::Active { reg, failed } => {
            &&& new_ids.len() == old_ids.len() + 1
            &&& new_ids.drop_last() == old_ids
            &&& reg_added(old_st, new_st, new_ids.last().0, Location { line: reg.line as usize, file }, open)
        },
        _ => new_st == old_st && new_ids == old_ids,
    }
}

/// Whether a field annotation with these pairs adds a field to the open
/// register.
pub open spec fn on_field_adds(m: LowerModel, ps: Seq<KvPairView>, line: int) -> bool {
    match m.mode {
        ModeModel::Active { reg, failed } => sat_sub(line, reg.line + reg.fields.len() + failed) == 1
            && !spec_field_kv_panics(ps) && spec_field_from_kv(ps) is Ok,
        _ => false,
    }
}

proof fn lemma_only_added_field(base: State, st: State, st2: State, ids: Seq<RegId>, extra: Seq<FieldId>, k: u64, loc: Location)
    requires
        only_added(base, st, ids, extra),
        field_added(st, st2, k, loc),
    ensures
        only_added(base, st2, ids, extra.push(FieldId(k))),
{
    let extra2 = extra.push(FieldId(k));
    assert(extra2[extra.len() as int] == FieldId(k));
    assert forall|x: u64| field_of(st, ids, extra, x) implies field_of(st2, ids, extra2, x) by {
        if exists|j: int| 0 <= j < extra.len() && #[trigger] extra[j] == FieldId(x) {
            let j = choose|j: int| 0 <= j < extra.len() && #[trigger] extra[j] == FieldId(x);
            assert(extra2[j] == FieldId(x));
        } else {
            let (i, j) = choose|i: int, j: int|
                0 <= i < ids.len() && 0 <= j < st.regs()[ids[i].0]@.fields.len() && #[trigger] st.regs()[ids[i].0]@.fields[j]
                    == FieldId(x);
            assert(st2.regs()[ids[i].0]@.fields[j] == FieldId(x));
        }
    }
    assert forall|x: u64| #[trigger] st2.field_map().dom().contains(x) implies base.field_map().dom().contains(x) || field_of(
        st2,
        ids,
        extra2,
        x,
    ) by {
        if x != k {
            assert(st.field_map().dom().contains(x));
        }
    }
    assert forall|x: u64| #[trigger] st2.field_locs().dom().contains(x) implies base.field_locs().dom().contains(x) || field_of(
        st2,
        ids,
        extra2,
        x,
    ) by {
        if x != k {
            assert(st.field_locs().dom().contains(x));
        }
    }
}

proof fn lemma_only_added_reg(
    base: State,
    st: State,
    st2: State,
    ids: Seq<RegId>,
    kept: Seq<FieldId>,
    open: Seq<FieldId>,
    k: u64,
    loc: Location,
)
    requires
        only_added(base, st, ids, kept + open),
        reg_added(st, st2, k, loc, open),
        forall|i: int| 0 <= i < ids.len() ==> st.regs().dom().contains(#[trigger] ids[i].0),
    ensures
        only_added(base, st2, ids.push(RegId(k)), kept),
{
    let ids2 = ids.push(RegId(k));
    let extra = kept + open;
    assert(ids2[ids.len() as int] == RegId(k));
    assert forall|x: u64| reg_of(ids, x) implies reg_of(ids2, x) by {
        let i = choose|i: int| 0 <= i < ids.len() && #[trigger] ids[i] == RegId(x);
        assert(ids2[i] == RegId(x));
    }
    assert forall|x: u64| field_of(st, ids, extra, x) implies field_of(st2, ids2, kept, x) by {
        if exists|j: int| 0 <= j < extra.len() && #[trigger] extra[j] == FieldId(x) {
            let j = choose|j: int| 0 <= j < extra.len() && #[trigger] extra[j] == FieldId(x);
            if j < kept.len() {
                assert(kept[j] == FieldId(x));
            } else {
                assert(open[j - kept.len()] == FieldId(x));
                assert(st2.regs()[ids2[ids.len() as int].0]@.fields[j - kept.len()] == FieldId(x));
            }
        } else {
            let (i, j) = choose|i: int, j: int|
                0 <= i < ids.len() && 0 <= j < st.regs()[ids[i].0]@.fields.len() && #[trigger] st.regs()[ids[i].0]@.fields[j]
                    == FieldId(x);
            assert(st.regs().dom().contains(ids[i].0));
            assert(ids[i].0 != k);
            assert(st2.regs()[ids[i].0] == st.regs()[ids[i].0]);
            assert(ids2[i] == ids[i]);
            assert(st2.regs()[ids2[i].0]@.fields[j] == FieldId(x));
        }
    }
    assert forall|x: u64| #[trigger] st2.regs().dom().contains(x) implies base.regs().dom().contains(x) || reg_of(ids2, x) by {
        if x != k {
            assert(st.regs().dom().contains(x));
        }
    }
    assert forall|x: u64| #[trigger] st2.reg_locs().dom().contains(x) implies base.reg_locs().dom().contains(x) || reg_of(ids2, x) by {
        if x != k {
            assert(st.reg_locs().dom().contains(x));
        }
    }
    assert forall|x: u64| #[trigger] st2.field_map().dom().contains(x) implies base.field_map().dom().contains(x) || field_of(
        st2,
        ids2,
        kept,
        x,
    ) by {
        assert(st.field_map().dom().contains(x));
    }
    assert forall|x: u64| #[trigger] st2.field_locs().dom().contains(x) implies base.field_locs().dom().contains(x) || field_of(
        st2,
        ids2,
        kept,
        x,
    ) by {
        assert(st.field_locs().dom().contains(x));
    }
}

/// Storing the open register adds at most one register.
proof fn lemma_flushed_len(
    m: LowerModel,
    file: FileId,
    old_st: State,
    new_st: State,
    old_ids: Seq<RegId>,
    new_ids: Seq<RegId>,
    open: Seq<FieldId>,
)
    requires
        old_st.wf(),
        store_flushed(m, file, old_st, new_st, old_ids, new_ids, open),
    ensures
        new_st.regs().dom().len() <= old_st.regs().dom().len() + 1,
        new_st.field_map() == old_st.field_map(),
{
    State::lemma_wf_finite(&old_st);
    if m.mode is Active {
        let k = new_ids.last().0;
        assert(new_st.regs().dom() == old_st.regs().dom().insert(k));
    }
}

// ---------------------------------------------------------------------------
// The executable lowering context

pub enum LowerState {
    Empty,
    Active { reg: Register, line: usize, failed_fields: usize },
    Failed,
}

pub struct LowerCtx {
    state: LowerState,
    errors: Vec<LatchError>,
    registers: Vec<RegId>,
    file_id: FileId,
    base: Ghost<State>,
    dropped: Ghost<Seq<FieldId>>,
}

impl LowerCtx {
    /// The context holds the model `m` in store `st`, after `k` annotations
    /// of file `file`.
    pub closed spec fn holds(&self, m: LowerModel, st: State, k: int) -> bool {
        &&& st.wf()
        &&& !m.panics
        &&& errors_view(self.errors@) == m.errors
        &&& self.registers@.len() == m.regs.len()
        &&& only_added(self.base@, st, self.registers@, self.dropped@ + self.open_field_ids())
        &&& self.dropped@.len() > 0 ==> m.errors.len() > 0
        &&& forall|i: int|
            #![trigger self.registers@[i]]
            0 <= i < self.registers@.len() ==> reg_matches(st, self.registers@[i].0, m.regs[i], self.file_id)
        &&& match (self.state, m.mode) {
            (LowerState::Empty, ModeModel::Empty) => true,
            (LowerState::Failed, ModeModel::Failed) => true,
            (LowerState::Active { reg, line, failed_fields }, ModeModel::Active { reg: rm, failed }) => {
                &&& reg@.offset == rm.offset
                &&& reg@.name == rm.name
                &&& reg@.description == rm.description
                &&& fields_match(st, reg@.fields, rm.fields, self.file_id)
                &&& line == rm.line
                &&& failed_fields == failed
                &&& reg@.fields.len() + failed <= k
            },
            _ => false,
        }
    }

    /// The store that a context holds a model in is well formed.
    pub proof fn lemma_holds_wf(&self, m: LowerModel, st: State, k: int)
        requires
            self.holds(m, st, k),
        ensures
            st.wf(),
            !m.panics,
    {
    }

    pub fn new(file: FileId, Ghost(st): Ghost<State>) -> (r: Self)
        requires
            st.wf(),
        ensures
            r.file() == file,
            r.base() == st,
            r.reg_ids().len() == 0,
            r.holds(initial_model(), st, 0),
    {
        let r = Self {
            state: LowerState::Empty,
            errors: Vec::new(),
            registers: Vec::new(),
            file_id: file,
            base: Ghost(st),
            dropped: Ghost(Seq::empty()),
        };
        assert(errors_view(r.errors@) =~= Seq::<LatchErrorView>::empty());
        r
    }

    pub closed spec fn file(&self) -> FileId {
        self.file_id
    }

    /// The store as it was when lowering began.
    pub closed spec fn base(&self) -> State {
        self.base@
    }

    /// The ids of the registers stored so far, in order.
    pub closed spec fn reg_ids(&self) -> Seq<RegId> {
        self.registers@
    }

    /// The ids of the open register's fields; none when no register is open.
    pub closed spec fn open_field_ids(&self) -> Seq<FieldId> {
        match self.state {
            LowerState::Active { reg, line, failed_fields } => reg@.fields,
            _ => Seq::empty(),
        }
    }

    /// The ids of fields stored for registers that a later syntax error
    /// discarded.
    pub closed spec fn dropped_field_ids(&self) -> Seq<FieldId> {
        self.dropped@
    }

    /// The errors met so far, in order.
    pub closed spec fn error_views(&self) -> Seq<LatchErrorView> {
        errors_view(self.errors@)
    }

    /// Whether no register is open.
    pub closed spec fn is_idle(&self) -> bool {
        self.state is Empty
    }

    fn take_state(&mut self) -> (r: LowerState)
        ensures
            r == old(self).state,
            final(self).state is Empty,
            final(self).errors == old(self).errors,
            final(self).registers == old(self).registers,
            final(self).file() == old(self).file(),
            final(self).base == old(self).base,
            final(self).dropped == old(self).dropped,
    {
        let mut s = LowerState::Empty;
        std::mem::swap(&mut s, &mut self.state);
        s
    }

    /// Stores the open register, as [`spec_flush`] states.
    fn flush_active(&mut self, state: &mut State, Ghost(m): Ghost<LowerModel>, Ghost(k): Ghost<int>)
        requires
            old(self).holds(m, *old(state), k),
            old(state).regs().dom().len() < 0xffff_fffe,
        ensures
            final(self).holds(spec_flush(m, old(self).file()), *final(state), k),
            final(self).file() == old(self).file(),
            final(self).base() == old(self).base(),
            final(self).dropped_field_ids() == old(self).dropped_field_ids(),
            final(self).is_idle(),
            store_flushed(
                m,
                old(self).file(),
                *old(state),
                *final(state),
                old(self).reg_ids(),
                final(self).reg_ids(),
                old(self).open_field_ids(),
            ),
            final(state).extends(old(state)),
    {
        let ghost st0 = *old(state);
        let ghost ids0 = self.registers@;
        let ghost open0 = self.open_field_ids();
        proof {
            assert forall|i: int| 0 <= i < ids0.len() implies st0.regs().dom().contains(#[trigger] ids0[i].0) by {
                assert(reg_matches(st0, ids0[i].0, m.regs[i], self.file_id));
            }
        }
        match self.take_state() {
            LowerState::Active { reg, line, failed_fields } => {
                if reg.get_fields().len() == 0 {
                    if failed_fields == 0 {
                        let e = LoweringError::new(String::from_str("Registers require at least one @field."), line, self.file_id);
                        let ghost before = errors_view(self.errors@);
                        self.errors.push(LatchError::Lowering(e));
                        assert(errors_view(self.errors@) =~= before.push(self.errors@.last()@));
                    }
                }
                let ghost rv = reg@;
                let reg_id = state.insert_reg(reg);
                let ghost st1 = *state;
                let ghost regs_before = self.registers@;
                self.registers.push(reg_id);
                let loc = Location { file: self.file_id, line };
                state.add_reg_loc(reg_id, loc);
                proof {
                    let ghost rm = match m.mode {
                        ModeModel::Active { reg, failed } => reg,
                        _ => arbitrary(),
                    };
                    assert(state.extends(&st0));
                    assert(state.regs()[reg_id.0]@ == rv);
                    lemma_fields_match_extend(st0, *state, rv.fields, rm.fields, self.file_id);
                    lemma_regs_match_extend(st0, *state, regs_before, m.regs, self.file_id);
                    assert(reg_matches(*state, reg_id.0, rm, self.file_id));
                    assert forall|i: int|
                        #![trigger self.registers@[i]]
                        0 <= i < self.registers@.len() implies reg_matches(
                        *state,
                        self.registers@[i].0,
                        spec_flush(m, self.file_id).regs[i],
                        self.file_id,
                    ) by {
                        if i < regs_before.len() {
                            assert(self.registers@[i] == regs_before[i]);
                        }
                    }
                    assert(rv.fields == open0);
                    assert(reg_added(st0, *state, reg_id.0, loc, open0));
                    assert(self.registers@.drop_last() =~= ids0);
                    lemma_only_added_reg(self.base@, st0, *state, ids0, self.dropped@, open0, reg_id.0, loc);
                    assert(self.open_field_ids() =~= Seq::<FieldId>::empty());
                    assert(self.dropped@ + self.open_field_ids() =~= self.dropped@);
                }
            },
            _ => {
                assert(self.open_field_ids() =~= open0);
            },
        }
    }

    /// An annotation whose key/value list failed to parse, as
    /// [`spec_on_parse_error`] states.
    pub fn on_parse_error(
        &mut self,
        kind: AnnotationKind,
        line: usize,
        pre_offset: usize,
        e: KvError,
        Ghost(m): Ghost<LowerModel>,
        Ghost(st): Ghost<State>,
        Ghost(k): Ghost<int>,
    )
        requires
            old(self).holds(m, st, k),
            pre_offset == spec_pre_offset(kind),
            k < usize::MAX,
            e.start + pre_offset <= usize::MAX,
            e.start <= e.end,
        ensures
            final(self).holds(
                spec_on_parse_error(m, kind, line as int, (e.kind, e.start as int, e.end as int), old(self).file()),
                st,
                k + 1,
            ),
            final(self).file() == old(self).file(),
            final(self).base() == old(self).base(),
            final(self).reg_ids() == old(self).reg_ids(),
    {
        let ghost open0 = self.open_field_ids();
        let ghost dropped0 = self.dropped@;
        let pe = ParseError::new(e.kind.message(), line, pre_offset + e.start, e.end, self.file_id);
        let ghost before = errors_view(self.errors@);
        self.errors.push(LatchError::from(pe));
        assert(errors_view(self.errors@) =~= before.push(self.errors@.last()@));
        match kind {
            AnnotationKind::Reg => {
                self.state = LowerState::Failed;
                self.dropped = Ghost(dropped0 + open0);
                assert(self.dropped@ + self.open_field_ids() =~= dropped0 + open0);
            },
            AnnotationKind::Field => {
                let s = self.take_state();
                match s {
                    LowerState::Active { reg, line, failed_fields } => {
                        self.state = LowerState::Active { reg, line, failed_fields: failed_fields + 1 };
                    },
                    other => {
                        self.state = other;
                    },
                }
                assert(self.open_field_ids() =~= open0);
            },
        }
    }

    /// A register annotation, as [`spec_on_reg`] states.
    pub fn on_reg(&mut self, kv: &Vec<KvPair>, line: usize, state: &mut State, Ghost(m): Ghost<LowerModel>, Ghost(k): Ghost<int>)
        requires
            old(self).holds(m, *old(state), k),
            !spec_register_kv_panics(pairs_view(kv@)),
            k >= 0,
            old(state).regs().dom().len() < 0xffff_fffe,
        ensures
            final(self).holds(spec_on_reg(m, pairs_view(kv@), line as int, old(self).file()), *final(state), k + 1),
            final(self).file() == old(self).file(),
            final(self).base() == old(self).base(),
            store_flushed(
                m,
                old(self).file(),
                *old(state),
                *final(state),
                old(self).reg_ids(),
                final(self).reg_ids(),
                old(self).open_field_ids(),
            ),
            final(state).extends(old(state)),
            final(state).regs().dom().len() <= old(state).regs().dom().len() + 1,
    {
        self.flush_active(state, Ghost(m), Ghost(k));
        proof {
            lemma_flushed_len(m, self.file_id, *old(state), *state, old(self).reg_ids(), self.registers@, old(self).open_field_ids());
        }
        let ghost m1 = spec_flush(m, self.file_id);
        match Register::from_kv_values(kv.as_slice(), line, self.file_id) {
            Ok(reg) => {
                assert(fields_match(*state, reg@.fields, Seq::<FieldModel>::empty(), self.file_id));
                let ghost open_before = self.open_field_ids();
                self.state = LowerState::Active { reg, line, failed_fields: 0 };
                assert(self.open_field_ids() =~= open_before);
            },
            Err(e) => {
                self.state = LowerState::Failed;
                let ghost before = errors_view(self.errors@);
                self.errors.push(LatchError::from(e));
                assert(errors_view(self.errors@) =~= before.push(self.errors@.last()@));
            },
        }
    }

    /// A field annotation, as [`spec_on_field`] states.
    pub fn on_field(&mut self, kv: &Vec<KvPair>, field_line: usize, state: &mut State, Ghost(m): Ghost<LowerModel>, Ghost(k): Ghost<int>)
        requires
            old(self).holds(m, *old(state), k),
            !spec_on_field(m, pairs_view(kv@), field_line as int, old(self).file()).panics,
            k < usize::MAX,
            old(state).field_map().dom().len() < 0xffff_fffe,
        ensures
            final(self).holds(spec_on_field(m, pairs_view(kv@), field_line as int, old(self).file()), *final(state), k + 1),
            final(self).file() == old(self).file(),
            final(self).base() == old(self).base(),
            final(self).dropped_field_ids() == old(self).dropped_field_ids(),
            final(self).reg_ids() == old(self).reg_ids(),
            (if on_field_adds(m, pairs_view(kv@), field_line as int) {
                &&& final(self).open_field_ids().len() == old(self).open_field_ids().len() + 1
                &&& final(self).open_field_ids().drop_last() == old(self).open_field_ids()
                &&& field_added(
                    *old(state),
                    *final(state),
                    final(self).open_field_ids().last().0,
                    Location { line: field_line, file: old(self).file() },
                )
            } else {
                &&& *final(state) == *old(state)
                &&& final(self).open_field_ids() == old(self).open_field_ids()
            }),
            final(state).extends(old(state)),
            final(state).regs() == old(state).regs(),
            final(state).field_map().dom().len() <= old(state).field_map().dom().len() + 1,
    {
        let ghost st0 = *old(state);
        let ghost open0 = self.open_field_ids();
        let s = self.take_state();
        match s {
            LowerState::Empty => {
                let e = LoweringError::new(String::from_str("field annotation must follow a reg annotation"), field_line, self.file_id);
                let ghost before = errors_view(self.errors@);
                self.errors.push(LatchError::from(e));
                assert(errors_view(self.errors@) =~= before.push(self.errors@.last()@));
                self.state = LowerState::Empty;
            },
            LowerState::Failed => {
                self.state = LowerState::Failed;
            },
            LowerState::Active { mut reg, line, failed_fields } => {
                let nf = reg.get_fields().len();
                let adjacent = field_line > line && field_line - line > nf && field_line - line - nf > failed_fields
                    && field_line - line - nf - failed_fields == 1;
                if !adjacent {
                    let e = LoweringError::new(
                        String::from_str("field annotation must immediately follow a reg or field annotation"),
                        field_line,
                        self.file_id,
                    );
                    let ghost before = errors_view(self.errors@);
                    self.errors.push(LatchError::from(e));
                    assert(errors_view(self.errors@) =~= before.push(self.errors@.last()@));
                    self.state = LowerState::Active { reg, line, failed_fields };
                } else {
                    match Field::from_kv_values(kv.as_slice(), field_line, self.file_id) {
                        Ok(f) => {
                            let ghost fv = f@;
                            let field_id = state.insert_field(f);
                            let loc = Location { line: field_line, file: self.file_id };
                            state.add_field_loc(field_id, loc);
                            proof {
                                assert(field_added(st0, *state, field_id.0, loc));
                                lemma_only_added_field(self.base@, st0, *state, self.registers@, self.dropped@ + open0, field_id.0, loc);
                            }
                            let ghost fields_before = reg@.fields;
                            reg.add_field(field_id);
                            proof {
                                let rm = match m.mode {
                                    ModeModel::Active { reg, failed } => reg,
                                    _ => arbitrary(),
                                };
                                assert(state.extends(&st0));
                                lemma_fields_match_extend(st0, *state, fields_before, rm.fields, self.file_id);
                                lemma_regs_match_extend(st0, *state, self.registers@, m.regs, self.file_id);
                                let new_fields = rm.fields.push(FieldModel { field: fv, line: field_line as int });
                                assert(reg@.fields == fields_before.push(field_id));
                                assert forall|i: int|
                                    #![trigger reg@.fields[i]]
                                    0 <= i < reg@.fields.len() implies {
                                    &&& state.field_map().dom().contains(reg@.fields[i].0)
                                    &&& state.field_map()[reg@.fields[i].0]@ == new_fields[i].field
                                    &&& state.field_locs().dom().contains(reg@.fields[i].0)
                                    &&& state.field_locs()[reg@.fields[i].0].line == new_fields[i].line
                                    &&& state.field_locs()[reg@.fields[i].0].file == self.file_id
                                } by {
                                    if i < fields_before.len() {
                                        assert(reg@.fields[i] == fields_before[i]);
                                    }
                                }
                            }
                            self.state = LowerState::Active { reg, line, failed_fields };
                            assert(self.open_field_ids() =~= open0.push(field_id));
                            assert((self.dropped@ + open0).push(field_id) =~= self.dropped@ + self.open_field_ids());
                        },
                        Err(e) => {
                            let ghost before = errors_view(self.errors@);
                            self.errors.push(LatchError::from(e));
                            assert(errors_view(self.errors@) =~= before.push(self.errors@.last()@));
                            self.state = LowerState::Active { reg, line, failed_fields: failed_fields + 1 };
                        },
                    }
                }
            },
        }
    }

    /// Whether a field annotation with these pairs would stop the program
    /// now, as [`spec_on_field`] states.
    pub fn field_would_stop(&self, kv: &Vec<KvPair>, field_line: usize, Ghost(m): Ghost<LowerModel>, Ghost(st): Ghost<State>, Ghost(k): Ghost<int>) -> (b: bool)
        requires
            self.holds(m, st, k),
        ensures
            b == spec_on_field(m, pairs_view(kv@), field_line as int, self.file()).panics,
    {
        match &self.state {
            LowerState::Active { reg, line, failed_fields } => {
                let nf = reg.get_fields().len();
                let adjacent = field_line > *line && field_line - *line > nf && field_line - *line - nf > *failed_fields
                    && field_line - *line - nf - *failed_fields == 1;
                adjacent && field_kv_panics(kv.as_slice())
            },
            _ => false,
        }
    }

    /// Stores the open register and gives the stored registers, or every
    /// error if there was one. Registers stored before an error stay
    /// stored either way; afterwards the context holds no error and no open
    /// register, and, when it gave the registers, no register either.
    pub fn finish(&mut self, state: &mut State, Ghost(m): Ghost<LowerModel>, Ghost(k): Ghost<int>) -> (r: Result<Vec<RegId>, Vec<LatchError>>)
        requires
            old(self).holds(m, *old(state), k),
            old(state).regs().dom().len() < 0xffff_fffe,
        ensures
            final(state).extends(old(state)),
            final(state).wf(),
            final(state).regs().dom().len() <= old(state).regs().dom().len() + 1,
            final(self).file() == old(self).file(),
            final(self).base() == old(self).base(),
            final(self).error_views().len() == 0,
            final(self).is_idle(),
            ({
                let fm = spec_flush(m, old(self).file());
                match r {
                    Ok(ids) => {
                        &&& fm.errors.len() == 0
                        &&& ids@.len() == fm.regs.len()
                        &&& forall|i: int|
                            #![trigger ids@[i]]
                            0 <= i < ids@.len() ==> reg_matches(*final(state), ids@[i].0, fm.regs[i], old(self).file())
                        &&& store_flushed(
                            m,
                            old(self).file(),
                            *old(state),
                            *final(state),
                            old(self).reg_ids(),
                            ids@,
                            old(self).open_field_ids(),
                        )
                        &&& final(self).reg_ids().len() == 0
                        &&& only_added(old(self).base(), *final(state), ids@, Seq::empty())
                    },
                    Err(errs) => {
                        let ids = final(self).reg_ids();
                        &&& fm.errors.len() > 0
                        &&& errors_view(errs@) == fm.errors
                        &&& ids.len() == fm.regs.len()
                        &&& forall|i: int|
                            #![trigger ids[i]]
                            0 <= i < ids.len() ==> reg_matches(*final(state), ids[i].0, fm.regs[i], old(self).file())
                        &&& store_flushed(
                            m,
                            old(self).file(),
                            *old(state),
                            *final(state),
                            old(self).reg_ids(),
                            ids,
                            old(self).open_field_ids(),
                        )
                        &&& only_added(old(self).base(), *final(state), ids, final(self).dropped_field_ids())
                    },
                }
            }),
    {
        self.flush_active(state, Ghost(m), Ghost(k));
        proof {
            lemma_flushed_len(m, self.file_id, *old(state), *state, old(self).reg_ids(), self.registers@, old(self).open_field_ids());
            assert(self.dropped@ + self.open_field_ids() =~= self.dropped@);
        }
        if self.errors.len() > 0 {
            let mut errs: Vec<LatchError> = Vec::new();
            std::mem::swap(&mut errs, &mut self.errors);
            assert(errors_view(self.errors@) =~= Seq::<LatchErrorView>::empty());
            Err(errs)
        } else {
            let mut regs: Vec<RegId> = Vec::new();
            std::mem::swap(&mut regs, &mut self.registers);
            assert(self.dropped@ =~= Seq::<FieldId>::empty());
            assert(errors_view(self.errors@).len() == 0);
            Ok(regs)
        }
    }
}

} // verus!
