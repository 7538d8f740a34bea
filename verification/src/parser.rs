//! Reading the registers that a source file's annotations describe.
use vstd::prelude::*;
use crate::error::{LatchError, LatchErrorView, errors_view};
use crate::ir::{field_stop_message, register_kv_panics, register_stop_message};
use crate::kv::parse_kv_pairs;
use crate::lower::{
    LowerCtx, RegModel, initial_model, lemma_panics_persist, only_added, reg_matches, spec_flush, spec_lower_all,
    spec_lower_step,
};
use crate::scanner::{AnnotationKind, RawAnnotation, annotations_view, lemma_scan_bounds, scan, spec_lines, spec_scan};
use crate::source_map::FileId;
use crate::state::{FieldId, RegId, State};

verus! {

/// The registers that a file's annotations describe, in order, or every
/// error that reading them met, in order.
pub open spec fn spec_parse_file(src: Seq<char>, file: FileId) -> Result<Seq<RegModel>, Seq<LatchErrorView>> {
    let m = spec_flush(spec_lower_all(spec_scan(src), file), file);
    if m.errors.len() == 0 {
        Ok(m.regs)
    } else {
        Err(m.errors)
    }
}

/// The registers that reading a file stores, in order, whether or not it
/// met an error.
pub open spec fn spec_parse_stored(src: Seq<char>, file: FileId) -> Seq<RegModel> {
    spec_flush(spec_lower_all(spec_scan(src), file), file).regs
}

/// What reading a file may leave in the store besides what was there: the
/// registers `regs` describe, under the ids `ids`, their fields and
/// locations, and the fields of registers that a later syntax error
/// discarded.
pub open spec fn stored_as(old: State, new: State, ids: Seq<RegId>, regs: Seq<RegModel>, file: FileId) -> bool {
    &&& ids.len() == regs.len()
    &&& forall|i: int| #![trigger ids[i]] 0 <= i < ids.len() ==> reg_matches(new, ids[i].0, regs[i], file)
    &&& exists|extra: Seq<FieldId>| only_added(old, new, ids, extra)
}

/// Whether reading the file stops the program: an annotation that parses,
/// and is reached, has a key of the wrong kind of value where a register or
/// field needs a number, a bit range, an access mode or a bare word.
pub open spec fn spec_parse_stops(src: Seq<char>, file: FileId) -> bool {
    spec_lower_all(spec_scan(src), file).panics
}

/// What the program says when reading the file stops it: the message of the
/// first annotation that stops it.
pub open spec fn spec_parse_stop_message(src: Seq<char>, file: FileId) -> Seq<char> {
    spec_lower_all(spec_scan(src), file).stop_message
}

/// The size limits that reading this file's text into `state` needs: its
/// length (a position in it fits a `usize`), and room in the register and
/// field stores for one entry per annotation.
pub open spec fn parse_fits(state: State, src: Seq<char>) -> bool {
    &&& src.len() + 16 <= usize::MAX
    &&& state.regs().dom().len() + spec_scan(src).len() + 4 < 0xffff_fffe
    &&& state.field_map().dom().len() + spec_scan(src).len() + 4 < 0xffff_fffe
}

/// Runs lowering over the annotations; `Err` with the program's message
/// where it would stop, before the annotation that would stop it.
fn lower_annotations(state: &mut State, anns: &Vec<RawAnnotation>, file_id: FileId, Ghost(src): Ghost<Seq<char>>) -> (r: Result<Result<Vec<RegId>, Vec<LatchError>>, String>)
    requires
        old(state).wf(),
        annotations_view(anns@) == spec_scan(src),
        parse_fits(*old(state), src),
    ensures
        final(state).wf(),
        final(state).extends(old(state)),
        r is Err <==> spec_parse_stops(src, file_id),
        match r {
            Ok(Ok(ids)) => spec_parse_file(src, file_id) matches Ok(regs) && ids@.len() == regs.len() && (forall|i: int|
                #![trigger ids@[i]]
                0 <= i < ids@.len() ==> reg_matches(*final(state), ids@[i].0, regs[i], file_id))
                && only_added(*old(state), *final(state), ids@, Seq::empty()),
            Ok(Err(errs)) => spec_parse_file(src, file_id) == Err::<Seq<RegModel>, Seq<LatchErrorView>>(errors_view(errs@))
                && exists|ids: Seq<RegId>| stored_as(*old(state), *final(state), ids, spec_parse_stored(src, file_id), file_id),
            Err(message) => message@ == spec_parse_stop_message(src, file_id),
        },
{
    let ghost av = annotations_view(anns@);
    proof {
        lemma_scan_bounds(src);
    }
    let ghost st0 = *old(state);
    proof {
        crate::scanner::lemma_scan_len(src);
        State::lemma_extends_refl(&st0);
    }
    let mut ctx = LowerCtx::new(file_id, Ghost(*state));
    let mut k: usize = 0;
    assert(av.take(0) =~= Seq::empty());
    while k < anns.len()
        invariant
            av == annotations_view(anns@),
            av == spec_scan(src),
            spec_lines(src).len() <= src.len() + 1,
            anns@.len() <= src.len() + 1,
            forall|i: int| 0 <= i < av.len() ==> (#[trigger] av[i]).content.len() <= src.len(),
            parse_fits(st0, src),
            st0 == *old(state),
            k <= anns@.len(),
            ctx.file() == file_id,
            ctx.base() == st0,
            ctx.holds(spec_lower_all(av.take(k as int), file_id), *state, k as int),
            state.extends(&st0),
            state.regs().dom().len() <= st0.regs().dom().len() + k,
            state.field_map().dom().len() <= st0.field_map().dom().len() + k,
        decreases anns@.len() - k,
    {
        let ghost m = spec_lower_all(av.take(k as int), file_id);
        let ghost st_before = *state;
        assert(av.take(k + 1).drop_last() =~= av.take(k as int));
        assert(av.take(k + 1).last() == av[k as int]);
        assert(av[k as int] == anns@[k as int]@);
        let ann = &anns[k];
        proof {
            ctx.lemma_holds_wf(m, *state, k as int);
        }
        match parse_kv_pairs(ann.content.as_slice()) {
            Err(e) => {
                ctx.on_parse_error(ann.kind, ann.line, ann.pre_offset(), e, Ghost(m), Ghost(*state), Ghost(k as int));
                assert(ctx.holds(spec_lower_step(m, av[k as int], file_id), *state, k + 1));
            },
            Ok(kv) => {
                match ann.kind {
                    AnnotationKind::Reg => {
                        if register_kv_panics(kv.as_slice()) {
                            proof {
                                assert(spec_lower_all(av.take(k + 1), file_id) == spec_lower_step(m, av[k as int], file_id));
                                lemma_panics_persist(av, k + 1, file_id);
                                ctx.lemma_holds_wf(m, *state, k as int);
                            }
                            return Err(register_stop_message(kv.as_slice()));
                        }
                        ctx.on_reg(&kv, ann.line, state, Ghost(m), Ghost(k as int));
                        assert(ctx.holds(spec_lower_step(m, av[k as int], file_id), *state, k + 1));
                    },
                    AnnotationKind::Field => {
                        if ctx.field_would_stop(&kv, ann.line, Ghost(m), Ghost(*state), Ghost(k as int)) {
                            proof {
                                assert(spec_lower_all(av.take(k + 1), file_id) == spec_lower_step(m, av[k as int], file_id));
                                lemma_panics_persist(av, k + 1, file_id);
                                ctx.lemma_holds_wf(m, *state, k as int);
                            }
                            return Err(field_stop_message(kv.as_slice()));
                        }
                        ctx.on_field(&kv, ann.line, state, Ghost(m), Ghost(k as int));
                        assert(ctx.holds(spec_lower_step(m, av[k as int], file_id), *state, k + 1));
                    },
                }
            },
        }
        proof {
            State::lemma_extends_trans(&st0, &st_before, &*state);
        }
        k = k + 1;
    }
    assert(av.take(anns@.len() as int) =~= av);
    let ghost st_before = *state;
    proof {
        ctx.lemma_holds_wf(spec_lower_all(av, file_id), *state, k as int);
    }
    let r = ctx.finish(state, Ghost(spec_lower_all(av, file_id)), Ghost(k as int));
    proof {
        State::lemma_extends_trans(&st0, &st_before, &*state);
        if r is Err {
            let ids = ctx.reg_ids();
            let extra = ctx.dropped_field_ids();
            assert(only_added(st0, *state, ids, extra));
            assert(stored_as(st0, *state, ids, spec_parse_stored(src, file_id), file_id));
        }
    }
    Ok(r)
}

/// Reads the registers that the annotations of a stored file describe,
/// storing them (with their fields and locations) in `state`.
///
/// Gives the ids of the registers in order when no annotation is in error,
/// and otherwise every error in order. Registers and fields read before an
/// error stay stored either way.
pub fn parse(state: &mut State, file_id: FileId) -> (r: Result<Vec<RegId>, Vec<LatchError>>)
    requires
        old(state).wf(),
        file_id.0 < old(state).files().len(),
        parse_fits(*old(state), old(state).files()[file_id.0 as int].text()),
        !spec_parse_stops(old(state).files()[file_id.0 as int].text(), file_id),
    ensures
        final(state).wf(),
        final(state).extends(old(state)),
        ({
            let src = old(state).files()[file_id.0 as int].text();
            match r {
                Ok(ids) => spec_parse_file(src, file_id) matches Ok(regs) && ids@.len() == regs.len() && (forall|i: int|
                    #![trigger ids@[i]]
                    0 <= i < ids@.len() ==> reg_matches(*final(state), ids@[i].0, regs[i], file_id))
                    && only_added(*old(state), *final(state), ids@, Seq::empty()),
                Err(errs) => spec_parse_file(src, file_id) == Err::<Seq<RegModel>, Seq<LatchErrorView>>(errors_view(errs@))
                    && exists|ids: Seq<RegId>| stored_as(*old(state), *final(state), ids, spec_parse_stored(src, file_id), file_id),
            }
        }),
{
    let ghost src = state.files()[file_id.0 as int].text();
    let anns = scan(state.get_file(file_id).chars());
    match lower_annotations(state, &anns, file_id, Ghost(src)) {
        Ok(r) => r,
        Err(_) => {
            assert(false);
            Err(Vec::new())
        },
    }
}

/// Whether the stored file's text is within the limits [`parse_fits`]
/// states for reading it into `state`.
pub fn parse_would_fit(state: &State, file_id: FileId) -> (b: bool)
    requires
        file_id.0 < state.files().len(),
    ensures
        b == parse_fits(*state, state.files()[file_id.0 as int].text()),
{
    let chars = state.get_file(file_id).chars();
    let count = scan(chars).len() as u128;
    let regs = state.reg_count() as u128;
    let fields = state.field_count() as u128;
    (chars.len() as u128) + 16 <= (usize::MAX as u128) && regs + count + 4 < 0xffff_fffe && fields + count + 4
        < 0xffff_fffe
}

/// What the program says if reading the stored file would stop it, as
/// [`spec_parse_stops`] and [`spec_parse_stop_message`] state, and `None`
/// if it would not; `state` is left as it is.
pub fn parse_stop_message(state: &State, file_id: FileId) -> (r: Option<String>)
    requires
        file_id.0 < state.files().len(),
        parse_fits(*state, state.files()[file_id.0 as int].text()),
    ensures
        r is Some <==> spec_parse_stops(state.files()[file_id.0 as int].text(), file_id),
        r matches Some(message) ==> message@ == spec_parse_stop_message(state.files()[file_id.0 as int].text(), file_id),
{
    let ghost src = state.files()[file_id.0 as int].text();
    let anns = scan(state.get_file(file_id).chars());
    let mut scratch = State::new();
    match lower_annotations(&mut scratch, &anns, file_id, Ghost(src)) {
        Ok(_) => None,
        Err(message) => Some(message),
    }
}

} // verus!
