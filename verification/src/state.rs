//! The store of registers, fields, their source locations and source files.
use vstd::prelude::*;
use crate::ir::{Field, Register};
use crate::slots::{
    FieldLocations, FieldSlots, RegisterLocations, RegisterSlots, field_locations, field_locations_get,
    field_locations_insert, field_locations_new, field_slots, field_slots_get, field_slots_insert,
    field_slots_keys, field_slots_new, key_index, key_is_live_form, key_version, register_locations, register_locations_get,
    register_locations_insert, register_locations_new, register_slots, register_slots_get,
    register_slots_insert, register_slots_keys, register_slots_new,
};
use crate::source_map::FileId;
use crate::text::str_to_chars;

verus! {

/// Identifies a register of a [`State`].
#[derive(Debug, Clone, Copy, Hash, PartialEq, Eq, Structural)]
pub struct RegId(pub u64);

/// Identifies a field of a [`State`].
#[derive(Debug, Clone, Copy, Hash, PartialEq, Eq, Structural)]
pub struct FieldId(pub u64);

/// Where an annotation stands: its line and file.
#[derive(Debug, Clone, Copy, PartialEq, Eq, Structural)]
pub struct Location {
    pub line: usize,
    pub file: FileId,
}

/// A source file: its name and text.
#[derive(Debug)]
pub struct SourceFile {
    name: String,
    source: String,
    chars: Vec<char>,
}

impl SourceFile {
    pub closed spec fn name_view(&self) -> Seq<char> {
        self.name@
    }

    pub closed spec fn text(&self) -> Seq<char> {
        self.chars@
    }

    pub fn name(&self) -> (r: &String)
        ensures
            r@ == self.name_view(),
    {
        &self.name
    }

    pub fn source(&self) -> (r: &String)
        ensures
            r@ == self.text(),
    {
        proof {
            use_type_invariant(self);
        }
        &self.source
    }

    pub fn chars(&self) -> (r: &[char])
        ensures
            r@ == self.text(),
    {
        self.chars.as_slice()
    }

    #[verifier::type_invariant]
    closed spec fn inv(self) -> bool {
        self.source@ == self.chars@
    }
}

/// `ks` lists each key of `dom` exactly once, by increasing slot index.
pub open spec fn lists_each_once(dom: Set<u64>, ks: Seq<u64>) -> bool {
    &&& ks.no_duplicates()
    &&& forall|i: int, j: int| 0 <= i < j < ks.len() ==> key_index(#[trigger] ks[i]) < key_index(#[trigger] ks[j])
    &&& ks.len() == dom.len()
    &&& forall|i: int| 0 <= i < ks.len() ==> dom.contains(#[trigger] ks[i])
    &&& forall|k: u64| dom.contains(k) ==> #[trigger] ks.contains(k)
}

/// Registers and fields by id, the lines they were read from, and the
/// source files.
pub struct State {
    registers: RegisterSlots,
    fields: FieldSlots,
    reg_locations: RegisterLocations,
    field_locations: FieldLocations,
    files: Vec<SourceFile>,
}

impl State {
    /// The registers, by id.
    pub closed spec fn regs(&self) -> Map<u64, Register> {
        register_slots(self.registers)
    }

    /// The fields, by id.
    pub closed spec fn field_map(&self) -> Map<u64, Field> {
        field_slots(self.fields)
    }

    /// The register locations, by register id.
    pub closed spec fn reg_locs(&self) -> Map<u64, Location> {
        register_locations(self.reg_locations)
    }

    /// The field locations, by field id.
    pub closed spec fn field_locs(&self) -> Map<u64, Location> {
        field_locations(self.field_locations)
    }

    /// The source files, in the order they were added.
    pub closed spec fn files(&self) -> Seq<SourceFile> {
        self.files@
    }

    /// The state's internal invariant: finitely many values, each id in the
    /// form slot maps hand out and in a slot of its own, and a location only
    /// for a stored register or field.
    pub closed spec fn wf(&self) -> bool {
        &&& self.regs().dom().finite()
        &&& self.field_map().dom().finite()
        &&& forall|k: u64| #[trigger] self.regs().dom().contains(k) ==> key_is_live_form(k)
        &&& forall|k: u64| #[trigger] self.field_map().dom().contains(k) ==> key_is_live_form(k)
        &&& forall|j: u64, k: u64|
            #[trigger] self.regs().dom().contains(j) && #[trigger] self.regs().dom().contains(k) && key_index(j)
                == key_index(k) ==> j == k
        &&& forall|j: u64, k: u64|
            #[trigger] self.field_map().dom().contains(j) && #[trigger] self.field_map().dom().contains(k)
                && key_index(j) == key_index(k) ==> j == k
        &&& forall|k: u64| #[trigger] self.reg_locs().dom().contains(k) ==> self.regs().dom().contains(k)
        &&& forall|k: u64| #[trigger] self.field_locs().dom().contains(k) ==> self.field_map().dom().contains(k)
    }

    /// Whether `self` holds everything `old` holds, unchanged.
    pub open spec fn extends(&self, old: &State) -> bool {
        &&& old.regs().submap_of(self.regs())
        &&& old.field_map().submap_of(self.field_map())
        &&& old.reg_locs().submap_of(self.reg_locs())
        &&& old.field_locs().submap_of(self.field_locs())
        &&& self.files() == old.files()
    }

    /// Extension is transitive.
    pub proof fn lemma_extends_trans(a: &State, b: &State, c: &State)
        requires
            b.extends(a),
            c.extends(b),
        ensures
            c.extends(a),
    {
        vstd::map_lib::lemma_submap_of_trans(a.regs(), b.regs(), c.regs());
        vstd::map_lib::lemma_submap_of_trans(a.field_map(), b.field_map(), c.field_map());
        vstd::map_lib::lemma_submap_of_trans(a.reg_locs(), b.reg_locs(), c.reg_locs());
        vstd::map_lib::lemma_submap_of_trans(a.field_locs(), b.field_locs(), c.field_locs());
    }

    /// A well-formed store holds finitely many registers and fields.
    pub proof fn lemma_wf_finite(st: &State)
        requires
            st.wf(),
        ensures
            st.regs().dom().finite(),
            st.field_map().dom().finite(),
    {
    }

    /// Every state extends itself.
    pub proof fn lemma_extends_refl(a: &State)
        ensures
            a.extends(a),
    {
    }

    /// An empty state.
    pub fn new() -> (r: Self)
        ensures
            r.wf(),
            r.regs().dom() == Set::<u64>::empty(),
            r.field_map().dom() == Set::<u64>::empty(),
            r.reg_locs().dom() == Set::<u64>::empty(),
            r.field_locs().dom() == Set::<u64>::empty(),
            r.files().len() == 0,
    {
        State {
            registers: register_slots_new(),
            fields: field_slots_new(),
            reg_locations: register_locations_new(),
            field_locations: field_locations_new(),
            files: Vec::new(),
        }
    }

    /// Adds a source file and returns its id, its position among the files.
    pub fn add_file(&mut self, name: String, source: String) -> (id: FileId)
        requires
            old(self).files().len() < u32::MAX,
        ensures
            id.0 == old(self).files().len(),
            final(self).files().len() == old(self).files().len() + 1,
            final(self).files().take(old(self).files().len() as int) == old(self).files(),
            final(self).files()[id.0 as int].name_view() == name@,
            final(self).files()[id.0 as int].text() == source@,
            final(self).regs() == old(self).regs(),
            final(self).field_map() == old(self).field_map(),
            final(self).reg_locs() == old(self).reg_locs(),
            final(self).field_locs() == old(self).field_locs(),
            old(self).wf() ==> final(self).wf(),
    {
        let id = FileId(self.files.len() as u32);
        let chars = str_to_chars(source.as_str());
        let file = SourceFile { name, source, chars };
        self.files.push(file);
        assert(self.files@.take(old(self).files@.len() as int) =~= old(self).files@);
        id
    }

    /// The file with the given id.
    pub fn get_file(&self, id: FileId) -> (r: &SourceFile)
        requires
            id.0 < self.files().len(),
        ensures
            *r == self.files()[id.0 as int],
    {
        &self.files[id.0 as usize]
    }

    /// All source files, by id.
    pub fn get_files(&self) -> (r: &[SourceFile])
        ensures
            r@ == self.files(),
    {
        self.files.as_slice()
    }

    /// Stores a register under a new id.
    pub fn insert_reg(&mut self, reg: Register) -> (id: RegId)
        requires
            old(self).wf(),
            old(self).regs().dom().len() < 0xffff_fffe,
        ensures
            final(self).wf(),
            !old(self).regs().dom().contains(id.0),
            !old(self).reg_locs().dom().contains(id.0),
            final(self).regs() == old(self).regs().insert(id.0, reg),
            final(self).regs().dom().len() == old(self).regs().dom().len() + 1,
            final(self).field_map() == old(self).field_map(),
            final(self).reg_locs() == old(self).reg_locs(),
            final(self).field_locs() == old(self).field_locs(),
            final(self).files() == old(self).files(),
    {
        let ghost before = *old(self);
        let k = register_slots_insert(&mut self.registers, reg);
        proof {
            assert(before.wf());
            assert(self.reg_locs() == before.reg_locs());
            assert(self.field_map() == before.field_map());
            assert(self.field_locs() == before.field_locs());
            assert forall|j: u64| #[trigger] self.regs().dom().contains(j) implies key_is_live_form(j) by {
                if j != k {
                    assert(before.regs().dom().contains(j));
                }
            }
            assert forall|i: u64, j: u64|
                #[trigger] self.regs().dom().contains(i) && #[trigger] self.regs().dom().contains(j) && key_index(i)
                    == key_index(j) implies i == j by {
                if i != k {
                    assert(before.regs().dom().contains(i));
                }
                if j != k {
                    assert(before.regs().dom().contains(j));
                }
            }
            assert forall|j: u64| #[trigger] self.reg_locs().dom().contains(j) implies self.regs().dom().contains(j) by {
                assert(before.reg_locs().dom().contains(j));
                assert(before.regs().dom().contains(j));
            }
        }
        RegId(k)
    }

    /// Stores a field under a new id.
    pub fn insert_field(&mut self, field: Field) -> (id: FieldId)
        requires
            old(self).wf(),
            old(self).field_map().dom().len() < 0xffff_fffe,
        ensures
            final(self).wf(),
            !old(self).field_map().dom().contains(id.0),
            !old(self).field_locs().dom().contains(id.0),
            final(self).field_map() == old(self).field_map().insert(id.0, field),
            final(self).field_map().dom().len() == old(self).field_map().dom().len() + 1,
            final(self).regs() == old(self).regs(),
            final(self).reg_locs() == old(self).reg_locs(),
            final(self).field_locs() == old(self).field_locs(),
            final(self).files() == old(self).files(),
    {
        let ghost before = *old(self);
        let k = field_slots_insert(&mut self.fields, field);
        proof {
            assert(before.wf());
            assert(self.reg_locs() == before.reg_locs());
            assert(self.regs() == before.regs());
            assert(self.field_locs() == before.field_locs());
            assert forall|j: u64| #[trigger] self.field_map().dom().contains(j) implies key_is_live_form(j) by {
                if j != k {
                    assert(before.field_map().dom().contains(j));
                }
            }
            assert forall|i: u64, j: u64|
                #[trigger] self.field_map().dom().contains(i) && #[trigger] self.field_map().dom().contains(j)
                    && key_index(i) == key_index(j) implies i == j by {
                if i != k {
                    assert(before.field_map().dom().contains(i));
                }
                if j != k {
                    assert(before.field_map().dom().contains(j));
                }
            }
            assert forall|j: u64| #[trigger] self.field_locs().dom().contains(j) implies self.field_map().dom().contains(j) by {
                assert(before.field_map().dom().contains(j));
            }
        }
        FieldId(k)
    }

    /// Records where a stored register was read from.
    pub fn add_reg_loc(&mut self, reg_id: RegId, loc: Location)
        requires
            old(self).wf(),
            old(self).regs().dom().contains(reg_id.0),
        ensures
            final(self).wf(),
            final(self).reg_locs() == old(self).reg_locs().insert(reg_id.0, loc),
            final(self).regs() == old(self).regs(),
            final(self).field_map() == old(self).field_map(),
            final(self).field_locs() == old(self).field_locs(),
            final(self).files() == old(self).files(),
    {
        let ghost before = *old(self);
        proof {
            assert(before.wf());
            assert forall|j: u64| #[trigger] register_locations(before.reg_locations).dom().contains(j) && key_index(j) == key_index(reg_id.0) implies j == reg_id.0 by {
                assert(before.reg_locs().dom().contains(j));
                assert(before.regs().dom().contains(j));
            }
        }
        register_locations_insert(&mut self.reg_locations, reg_id.0, loc);
        proof {
            assert(self.regs() == before.regs());
            assert(self.field_map() == before.field_map());
            assert(self.field_locs() == before.field_locs());
            assert forall|j: u64| #[trigger] self.reg_locs().dom().contains(j) implies self.regs().dom().contains(j) by {
                if j != reg_id.0 {
                    assert(before.reg_locs().dom().contains(j));
                }
            }
        }
    }

    /// Records where a stored field was read from.
    pub fn add_field_loc(&mut self, field_id: FieldId, loc: Location)
        requires
            old(self).wf(),
            old(self).field_map().dom().contains(field_id.0),
        ensures
            final(self).wf(),
            final(self).field_locs() == old(self).field_locs().insert(field_id.0, loc),
            final(self).regs() == old(self).regs(),
            final(self).field_map() == old(self).field_map(),
            final(self).reg_locs() == old(self).reg_locs(),
            final(self).files() == old(self).files(),
    {
        let ghost before = *old(self);
        proof {
            assert(before.wf());
            assert forall|j: u64| #[trigger] field_locations(before.field_locations).dom().contains(j) && key_index(j) == key_index(field_id.0) implies j == field_id.0 by {
                assert(before.field_locs().dom().contains(j));
                assert(before.field_map().dom().contains(j));
            }
        }
        field_locations_insert(&mut self.field_locations, field_id.0, loc);
        proof {
            assert(self.regs() == before.regs());
            assert(self.field_map() == before.field_map());
            assert(self.reg_locs() == before.reg_locs());
            assert forall|j: u64| #[trigger] self.field_locs().dom().contains(j) implies self.field_map().dom().contains(j) by {
                if j != field_id.0 {
                    assert(before.field_locs().dom().contains(j));
                }
            }
        }
    }

    /// The register with the given id.
    pub fn get_reg(&self, reg_id: RegId) -> (r: &Register)
        requires
            self.regs().dom().contains(reg_id.0),
        ensures
            *r == self.regs()[reg_id.0],
    {
        register_slots_get(&self.registers, reg_id.0)
    }

    /// The field with the given id.
    pub fn get_field(&self, field_id: FieldId) -> (r: &Field)
        requires
            self.field_map().dom().contains(field_id.0),
        ensures
            *r == self.field_map()[field_id.0],
    {
        field_slots_get(&self.fields, field_id.0)
    }

    /// Every register, each once, by increasing slot index of its id.
    pub fn get_regs(&self) -> (r: Vec<&Register>)
        ensures
            r@.len() == self.regs().dom().len(),
            forall|i: int| 0 <= i < r@.len() ==> self.regs().values().contains(*#[trigger] r@[i]),
            forall|k: u64| #[trigger] self.regs().dom().contains(k) ==> exists|i: int| 0 <= i < r@.len() && *r@[i] == self.regs()[k],
            exists|ks: Seq<u64>|
                lists_each_once(self.regs().dom(), ks) && forall|i: int|
                    0 <= i < r@.len() ==> *#[trigger] r@[i] == self.regs()[ks[i]],
    {
        let keys = register_slots_keys(&self.registers);
        let mut out: Vec<&Register> = Vec::new();
        let mut i: usize = 0;
        while i < keys.len()
            invariant
                i <= keys@.len(),
                out@.len() == i,
                forall|j: int| 0 <= j < keys@.len() ==> self.regs().dom().contains(#[trigger] keys@[j]),
                forall|j: int| 0 <= j < i ==> *out@[j] == self.regs()[#[trigger] keys@[j]],
            decreases keys@.len() - i,
        {
            out.push(register_slots_get(&self.registers, keys[i]));
            i = i + 1;
        }
        proof {
            assert(keys@.to_set() =~= self.regs().dom()) by {
                assert forall|k: u64| self.regs().dom().contains(k) implies keys@.to_set().contains(k) by {
                    assert(keys@.contains(k));
                }
            }
            keys@.unique_seq_to_set();
            assert forall|i: int| 0 <= i < out@.len() implies self.regs().values().contains(*#[trigger] out@[i]) by {
                let k = keys@[i];
                assert(self.regs().dom().contains(k));
                assert(*out@[i] == self.regs()[k]);
            }
            assert forall|k: u64| #[trigger] self.regs().dom().contains(k) implies exists|i: int| 0 <= i < out@.len() && *out@[i] == self.regs()[k] by {
                assert(keys@.contains(k));
                let i = choose|i: int| 0 <= i < keys@.len() && keys@[i] == k;
                assert(*out@[i] == self.regs()[keys@[i]]);
            }
            assert(keys@.no_duplicates());
            assert(lists_each_once(self.regs().dom(), keys@));
        }
        out
    }

    /// Every field, each once, by increasing slot index of its id.
    pub fn get_fields(&self) -> (r: Vec<&Field>)
        ensures
            r@.len() == self.field_map().dom().len(),
            forall|i: int| 0 <= i < r@.len() ==> self.field_map().values().contains(*#[trigger] r@[i]),
            forall|k: u64| #[trigger] self.field_map().dom().contains(k) ==> exists|i: int| 0 <= i < r@.len() && *r@[i] == self.field_map()[k],
            exists|ks: Seq<u64>|
                lists_each_once(self.field_map().dom(), ks) && forall|i: int|
                    0 <= i < r@.len() ==> *#[trigger] r@[i] == self.field_map()[ks[i]],
    {
        let keys = field_slots_keys(&self.fields);
        let mut out: Vec<&Field> = Vec::new();
        let mut i: usize = 0;
        while i < keys.len()
            invariant
                i <= keys@.len(),
                out@.len() == i,
                forall|j: int| 0 <= j < keys@.len() ==> self.field_map().dom().contains(#[trigger] keys@[j]),
                forall|j: int| 0 <= j < i ==> *out@[j] == self.field_map()[#[trigger] keys@[j]],
            decreases keys@.len() - i,
        {
            out.push(field_slots_get(&self.fields, keys[i]));
            i = i + 1;
        }
        proof {
            assert(keys@.to_set() =~= self.field_map().dom()) by {
                assert forall|k: u64| self.field_map().dom().contains(k) implies keys@.to_set().contains(k) by {
                    assert(keys@.contains(k));
                }
            }
            keys@.unique_seq_to_set();
            assert forall|i: int| 0 <= i < out@.len() implies self.field_map().values().contains(*#[trigger] out@[i]) by {
                let k = keys@[i];
                assert(self.field_map().dom().contains(k));
                assert(*out@[i] == self.field_map()[k]);
            }
            assert forall|k: u64| #[trigger] self.field_map().dom().contains(k) implies exists|i: int| 0 <= i < out@.len() && *out@[i] == self.field_map()[k] by {
                assert(keys@.contains(k));
                let i = choose|i: int| 0 <= i < keys@.len() && keys@[i] == k;
                assert(*out@[i] == self.field_map()[keys@[i]]);
            }
            assert(keys@.no_duplicates());
            assert(lists_each_once(self.field_map().dom(), keys@));
        }
        out
    }

    /// Whether a field is stored under the id.
    pub fn field_stored(&self, field_id: FieldId) -> (b: bool)
        ensures
            b == self.field_map().dom().contains(field_id.0),
    {
        let keys = field_slots_keys(&self.fields);
        let mut i: usize = 0;
        while i < keys.len()
            invariant
                i <= keys@.len(),
                forall|j: int| 0 <= j < keys@.len() ==> self.field_map().dom().contains(#[trigger] keys@[j]),
                forall|j: int| 0 <= j < i ==> keys@[j] != field_id.0,
            decreases keys@.len() - i,
        {
            if keys[i] == field_id.0 {
                return true;
            }
            i = i + 1;
        }
        proof {
            if self.field_map().dom().contains(field_id.0) {
                assert(keys@.contains(field_id.0));
            }
        }
        false
    }

    /// How many registers are stored.
    pub fn reg_count(&self) -> (n: usize)
        ensures
            n == self.regs().dom().len(),
    {
        let keys = register_slots_keys(&self.registers);
        proof {
            assert(keys@.to_set() =~= self.regs().dom()) by {
                assert forall|k: u64| self.regs().dom().contains(k) implies keys@.to_set().contains(k) by {
                    assert(keys@.contains(k));
                }
            }
            keys@.unique_seq_to_set();
        }
        keys.len()
    }

    /// How many fields are stored.
    pub fn field_count(&self) -> (n: usize)
        ensures
            n == self.field_map().dom().len(),
    {
        let keys = field_slots_keys(&self.fields);
        proof {
            assert(keys@.to_set() =~= self.field_map().dom()) by {
                assert forall|k: u64| self.field_map().dom().contains(k) implies keys@.to_set().contains(k) by {
                    assert(keys@.contains(k));
                }
            }
            keys@.unique_seq_to_set();
        }
        keys.len()
    }

    /// Where a register was read from, if it was read from a file.
    pub fn get_reg_loc(&self, reg_id: RegId) -> (r: Option<&Location>)
        ensures
            self.reg_locs().dom().contains(reg_id.0) ==> r == Some(&self.reg_locs()[reg_id.0]),
            !self.reg_locs().dom().contains(reg_id.0) && key_version(reg_id.0) % 2 == 1 ==> r is None,
    {
        register_locations_get(&self.reg_locations, reg_id.0)
    }

    /// Where a field was read from, if it was read from a file.
    pub fn get_field_loc(&self, field_id: FieldId) -> (r: Option<&Location>)
        ensures
            self.field_locs().dom().contains(field_id.0) ==> r == Some(&self.field_locs()[field_id.0]),
            !self.field_locs().dom().contains(field_id.0) && key_version(field_id.0) % 2 == 1 ==> r is None,
    {
        field_locations_get(&self.field_locations, field_id.0)
    }
}

impl Default for State {
    fn default() -> (r: Self)
        ensures
            r.wf(),
            r.regs().dom() == Set::<u64>::empty(),
            r.field_map().dom() == Set::<u64>::empty(),
            r.reg_locs().dom() == Set::<u64>::empty(),
            r.field_locs().dom() == Set::<u64>::empty(),
            r.files().len() == 0,
    {
        State::new()
    }
}

} // verus!
