//! Source lines of registers and fields, by file and position.
use std::collections::HashMap;
use vstd::prelude::*;

verus! {

/// Identifies a source file.
#[derive(Debug, Clone, Copy, Hash, PartialEq, Eq, Structural)]
pub struct FileId(pub u32);

/// Where a register stands: file and register index.
pub type RegKey = (FileId, usize);

/// Where a field stands: file, register index and field index.
pub type FieldKey = (FileId, usize, usize);

/// The number a register key packs into: the file above the register
/// index, which takes the low 64 bits.
pub open spec fn reg_code(k: RegKey) -> u128 {
    (k.0.0 as int * 0x1_0000_0000_0000_0000 + k.1 as int) as u128
}

/// A number that a register key packs into.
pub open spec fn is_reg_code(c: u128) -> bool {
    &&& c / 0x1_0000_0000_0000_0000 <= u32::MAX
    &&& c % 0x1_0000_0000_0000_0000 <= usize::MAX
}

/// The register key that a number unpacks to.
pub open spec fn reg_of_code(c: u128) -> RegKey {
    (FileId((c / 0x1_0000_0000_0000_0000) as u32), (c % 0x1_0000_0000_0000_0000) as usize)
}

proof fn lemma_reg_code(k: RegKey)
    ensures
        is_reg_code(reg_code(k)),
        reg_of_code(reg_code(k)) == k,
{
    let c = k.0.0 as int * 0x1_0000_0000_0000_0000 + k.1 as int;
    assert(c < 0x1_0000_0000_0000_0000_0000_0000_0000_0000);
    assert(c / 0x1_0000_0000_0000_0000 == k.0.0 as int);
    assert(c % 0x1_0000_0000_0000_0000 == k.1 as int);
}

fn pack_reg(file: FileId, reg_idx: usize) -> (c: u128)
    ensures
        c == reg_code((file, reg_idx)),
{
    proof {
        lemma_reg_code((file, reg_idx));
    }
    (file.0 as u128) * 0x1_0000_0000_0000_0000 + (reg_idx as u128)
}

/// The keys of the first `n` entries that walking a map gives.
pub open spec fn done_keys<K, V>(entries: Seq<(&K, &V)>, n: int) -> Set<K> {
    Set::new(|c: K| exists|j: int| 0 <= j < n && *(#[trigger] entries[j]).0 == c)
}

/// The field lines that a map from packed register keys to field lines
/// describes.
pub open spec fn nested_lines(m: Map<u128, HashMap<usize, usize>>) -> Map<FieldKey, usize> {
    Map::new(
        |k: FieldKey| m.contains_key(reg_code((k.0, k.1))) && m[reg_code((k.0, k.1))]@.contains_key(k.2),
        |k: FieldKey| m[reg_code((k.0, k.1))]@[k.2],
    )
}

/// Copies every line of `from` into `into`, replacing a line recorded there
/// for the same field.
fn merge_field_lines(into: &mut HashMap<usize, usize>, from: &HashMap<usize, usize>)
    ensures
        final(into)@ == old(into)@.union_prefer_right(from@),
{
    broadcast use vstd::std_specs::hash::group_hash_axioms;

    let ghost start = into@;
    let ghost entries = vstd::std_specs::iter::IteratorSpec::remaining(&vstd::std_specs::hash::spec_hash_map_iter(from));
    let ghost mut n: int = 0;
    for (idx, line) in it: from.iter()
        invariant
            entries == vstd::std_specs::iter::IteratorSpec::remaining(&vstd::std_specs::hash::spec_hash_map_iter(from)),
            it.seq() == entries,
            n == it.index(),
            into@ == start.union_prefer_right(from@.restrict(done_keys(entries, n))),
    {
        into.insert(*idx, *line);
        proof {
            n = n + 1;
        }
        assert(into@ =~= start.union_prefer_right(from@.restrict(done_keys(entries, n))));
    }
    assert(from@.restrict(done_keys(entries, n)) =~= from@);
}

/// Source lines of registers and fields. A register's lines are keyed by
/// its packed key; a field's key (a 32-bit file and two indices of up to
/// 64 bits each) does not fit the widest integer key, so fields are kept
/// by their register's packed key and then by field index.
#[derive(Debug)]
pub struct SourceMap {
    registers: HashMap<u128, usize>,
    fields: HashMap<u128, HashMap<usize, usize>>,
}

impl SourceMap {
    /// (file, register index) to source line.
    pub closed spec fn register_lines(&self) -> Map<RegKey, usize> {
        Map::new(
            |k: RegKey| self.registers@.contains_key(reg_code(k)),
            |k: RegKey| self.registers@[reg_code(k)],
        )
    }

    /// (file, register index, field index) to source line.
    pub closed spec fn field_lines(&self) -> Map<FieldKey, usize> {
        nested_lines(self.fields@)
    }

    pub closed spec fn wf(&self) -> bool {
        &&& forall|c: u128| #[trigger] self.registers@.contains_key(c) ==> is_reg_code(c)
        &&& forall|c: u128| #[trigger] self.fields@.contains_key(c) ==> is_reg_code(c)
    }

    /// An empty map.
    pub fn new() -> (r: Self)
        ensures
            r.wf(),
            r.register_lines() == Map::<RegKey, usize>::empty(),
            r.field_lines() == Map::<FieldKey, usize>::empty(),
    {
        broadcast use vstd::std_specs::hash::group_hash_axioms;

        let r = SourceMap { registers: HashMap::new(), fields: HashMap::new() };
        assert(r.register_lines() =~= Map::<RegKey, usize>::empty());
        assert(r.field_lines() =~= Map::<FieldKey, usize>::empty());
        r
    }

    /// Records the line of a register, replacing any line recorded for it.
    pub fn insert_register(&mut self, file: FileId, reg_idx: usize, line: usize)
        requires
            old(self).wf(),
        ensures
            final(self).wf(),
            final(self).register_lines() == old(self).register_lines().insert((file, reg_idx), line),
            final(self).field_lines() == old(self).field_lines(),
    {
        broadcast use vstd::std_specs::hash::group_hash_axioms;

        let ghost before = self.register_lines();
        let code = pack_reg(file, reg_idx);
        self.registers.insert(code, line);
        proof {
            lemma_reg_code((file, reg_idx));
            assert forall|k: RegKey| #[trigger] self.register_lines().dom().contains(k) <==> before.insert(
                (file, reg_idx),
                line,
            ).dom().contains(k) by {
                lemma_reg_code(k);
            }
            assert(self.register_lines() =~= before.insert((file, reg_idx), line));
        }
    }

    /// Records the line of a field, replacing any line recorded for it.
    pub fn insert_field(&mut self, file: FileId, reg_idx: usize, field_idx: usize, line: usize)
        requires
            old(self).wf(),
        ensures
            final(self).wf(),
            final(self).field_lines() == old(self).field_lines().insert((file, reg_idx, field_idx), line),
            final(self).register_lines() == old(self).register_lines(),
    {
        broadcast use vstd::std_specs::hash::group_hash_axioms;

        let ghost before = self.field_lines();
        let code = pack_reg(file, reg_idx);
        let mut lines = match self.fields.remove(&code) {
            Some(m) => m,
            None => HashMap::new(),
        };
        lines.insert(field_idx, line);
        self.fields.insert(code, lines);
        proof {
            lemma_reg_code((file, reg_idx));
            let after = before.insert((file, reg_idx, field_idx), line);
            assert forall|k: FieldKey| #[trigger] self.field_lines().dom().contains(k) <==> after.dom().contains(k) by {
                lemma_reg_code((k.0, k.1));
            }
            assert forall|k: FieldKey| #[trigger] self.field_lines().dom().contains(k) implies self.field_lines()[k]
                == after[k] by {
                lemma_reg_code((k.0, k.1));
            }
            assert(self.field_lines() =~= after);
        }
    }

    /// The recorded line of a register.
    pub fn register_line(&self, file: FileId, reg_idx: usize) -> (r: Option<usize>)
        requires
            self.wf(),
        ensures
            r == (if self.register_lines().dom().contains((file, reg_idx)) {
                Some(self.register_lines()[(file, reg_idx)])
            } else {
                None
            }),
    {
        broadcast use vstd::std_specs::hash::group_hash_axioms;

        match self.registers.get(&pack_reg(file, reg_idx)) {
            Some(line) => Some(*line),
            None => None,
        }
    }

    /// The recorded line of a field.
    pub fn field_line(&self, file: FileId, reg_idx: usize, field_idx: usize) -> (r: Option<usize>)
        requires
            self.wf(),
        ensures
            r == (if self.field_lines().dom().contains((file, reg_idx, field_idx)) {
                Some(self.field_lines()[(file, reg_idx, field_idx)])
            } else {
                None
            }),
    {
        broadcast use vstd::std_specs::hash::group_hash_axioms;

        match self.fields.get(&pack_reg(file, reg_idx)) {
            Some(lines) => match lines.get(&field_idx) {
                Some(line) => Some(*line),
                None => None,
            },
            None => None,
        }
    }

    /// Records every line of `other`; where both record a line for the same
    /// register or field, `other`'s line stays.
    pub fn extend(&mut self, other: Self)
        requires
            old(self).wf(),
            other.wf(),
        ensures
            final(self).wf(),
            final(self).register_lines() == old(self).register_lines().union_prefer_right(other.register_lines()),
            final(self).field_lines() == old(self).field_lines().union_prefer_right(other.field_lines()),
    {
        broadcast use vstd::std_specs::hash::group_hash_axioms;

        let ghost start = *self;
        let ghost entries = vstd::std_specs::iter::IteratorSpec::remaining(&vstd::std_specs::hash::spec_hash_map_iter(&other.registers));
        let ghost mut n: int = 0;
        for (code, line) in it: other.registers.iter()
            invariant
                self.wf(),
                other.wf(),
                entries == vstd::std_specs::iter::IteratorSpec::remaining(&vstd::std_specs::hash::spec_hash_map_iter(&other.registers)),
                it.seq() == entries,
                n == it.index(),
                self.registers@ == start.registers@.union_prefer_right(other.registers@.restrict(done_keys(entries, n))),
                self.fields@ == start.fields@,
        {
            self.registers.insert(*code, *line);
            proof {
                n = n + 1;
            }
            assert(self.registers@ =~= start.registers@.union_prefer_right(
                other.registers@.restrict(done_keys(entries, n)),
            ));
        }
        assert(other.registers@.restrict(done_keys(entries, n)) =~= other.registers@);
        assert(self.register_lines() =~= start.register_lines().union_prefer_right(other.register_lines()));
        let ghost mid = *self;
        let ghost groups = vstd::std_specs::iter::IteratorSpec::remaining(&vstd::std_specs::hash::spec_hash_map_iter(&other.fields));
        let ghost mut g: int = 0;
        for (code, lines) in it: other.fields.iter()
            invariant
                self.wf(),
                other.wf(),
                groups == vstd::std_specs::iter::IteratorSpec::remaining(&vstd::std_specs::hash::spec_hash_map_iter(&other.fields)),
                it.seq() == groups,
                g == it.index(),
                self.registers@ == mid.registers@,
                self.field_lines() == mid.field_lines().union_prefer_right(
                    nested_lines(other.fields@.restrict(done_keys(groups, g))),
                ),
        {
            let ghost before = self.field_lines();
            let ghost f0 = self.fields@;
            let ghost done_before = done_keys(groups, g);
            proof {
                assert(groups[g] == (code, lines));
                assert(other.fields@.contains_key(*groups[g].0));
            }
            let mut merged = match self.fields.remove(code) {
                Some(m) => m,
                None => HashMap::new(),
            };
            let ghost inner0 = merged@;
            merge_field_lines(&mut merged, lines);
            self.fields.insert(*code, merged);
            proof {
                g = g + 1;
                assert(done_keys(groups, g) =~= done_before.insert(*code));
                let done_after = nested_lines(other.fields@.restrict(done_keys(groups, g)));
                let want = mid.field_lines().union_prefer_right(done_after);
                assert(inner0 == (if f0.contains_key(*code) { f0[*code]@ } else { Map::<usize, usize>::empty() }));
                assert forall|k: FieldKey| #[trigger] self.field_lines().dom().contains(k) <==> want.dom().contains(k) by {
                    lemma_reg_code((k.0, k.1));
                    let c = reg_code((k.0, k.1));
                    assert(before.dom().contains(k) == nested_lines(f0).dom().contains(k));
                    if c != *code {
                        assert(self.fields@.contains_key(c) == f0.contains_key(c));
                    }
                }
                assert forall|k: FieldKey| #[trigger] self.field_lines().dom().contains(k) implies self.field_lines()[k]
                    == want[k] by {
                    lemma_reg_code((k.0, k.1));
                    let c = reg_code((k.0, k.1));
                    let nb = nested_lines(other.fields@.restrict(done_before));
                    assert(before.dom().contains(k) == nested_lines(f0).dom().contains(k));
                    assert(before.dom().contains(k) ==> before[k] == nested_lines(f0)[k]);
                    if c != *code {
                        assert(self.fields@[c] == f0[c]);
                        assert(nb.dom().contains(k) == done_after.dom().contains(k));
                        assert(nb.dom().contains(k) ==> nb[k] == done_after[k]);
                    } else if !lines@.contains_key(k.2) {
                        assert(!nb.dom().contains(k));
                        assert(!done_after.dom().contains(k));
                        assert(inner0.contains_key(k.2));
                        assert(before.dom().contains(k));
                    }
                }
                assert(self.field_lines() =~= want);
            }
        }
        assert(other.fields@.restrict(done_keys(groups, g)) =~= other.fields@);
    }
}

/// Reading a line after recording it gives the recorded line back, and
/// recording one register's or field's line leaves every other line as it
/// was.
pub proof fn lemma_read_after_write<K>(before: Map<K, usize>, key: K, line: usize, other: K)
    ensures
        before.insert(key, line).dom().contains(key),
        before.insert(key, line)[key] == line,
        other != key ==> before.insert(key, line).dom().contains(other) == before.dom().contains(other),
        other != key && before.dom().contains(other) ==> before.insert(key, line)[other] == before[other],
{
}

/// After extending a map by another, a register or field that the other
/// records has the other's line, and one that only the first records keeps
/// its line.
pub proof fn lemma_extend_prefers_other<K>(mine: Map<K, usize>, other: Map<K, usize>, key: K)
    ensures
        other.dom().contains(key) ==> mine.union_prefer_right(other).dom().contains(key)
            && mine.union_prefer_right(other)[key] == other[key],
        !other.dom().contains(key) ==> mine.union_prefer_right(other).dom().contains(key) == mine.dom().contains(key),
        !other.dom().contains(key) && mine.dom().contains(key) ==> mine.union_prefer_right(other)[key] == mine[key],
{
}

impl Default for SourceMap {
    fn default() -> (r: Self)
        ensures
            r.wf(),
            r.register_lines() == Map::<RegKey, usize>::empty(),
            r.field_lines() == Map::<FieldKey, usize>::empty(),
    {
        SourceMap::new()
    }
}

} // verus!
