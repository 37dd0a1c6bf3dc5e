//! Serializers: ordered lists of fields, and the paths and names that lead through them.

use crate::decoder::Decoders;
use crate::field::{
    child_fields, field_decoder_at, field_name, field_paths, field_resolve, field_type_at, room,
    Field, FieldModels,
};
use crate::field_path::{path_views, FieldPath};
use crate::field_state::{
    comes_before, lemma_contains_concat, lemma_stored_under, lemma_stored_under_ordered,
    tree_value, FieldState, Slot,
};
use crate::field_type::FieldType;
use crate::text::{chars_of, lemma_pad4_of_parse, occurs_at};
use rustc_hash::{FxBuildHasher, FxHashMap};
use std::rc::Rc;
use vstd::cell::invcell::InvCell;
use vstd::predicate::Predicate;
use vstd::prelude::*;
use vstd::string::StringExecFns;

verus! {

/// The name of what the path `p` leads to in a serializer of the given fields: empty
/// where the path is empty or its first index names no field.
pub open spec fn serializer_name(fields: Seq<Rc<Field>>, p: Seq<u8>) -> Seq<char>
    decreases p.len(), 0nat,
{
    if p.len() == 0 || p[0] >= fields.len() {
        Seq::empty()
    } else {
        field_name(*fields[p[0] as int], p.skip(1))
    }
}

/// The type of what the path `p` leads to in a serializer of the given fields.
pub open spec fn serializer_type(fields: Seq<Rc<Field>>, p: Seq<u8>) -> Option<FieldType>
    decreases p.len(), 0nat,
{
    if p.len() == 0 || p[0] >= fields.len() {
        None
    } else {
        field_type_at(*fields[p[0] as int], p.skip(1))
    }
}

/// The decoder that reads what the path `p` leads to in a serializer of the given fields.
pub open spec fn serializer_decoder(fields: Seq<Rc<Field>>, p: Seq<u8>) -> Option<Decoders>
    decreases p.len(), 0nat,
{
    if p.len() == 0 || p[0] >= fields.len() {
        None
    } else {
        field_decoder_at(*fields[p[0] as int], p.skip(1))
    }
}

/// Whether `name` is `var_name`, a dot, and something more.
pub open spec fn names_below(name: Seq<char>, var_name: Seq<char>) -> bool {
    name.len() > var_name.len() && name.take(var_name.len() as int) == var_name
        && name[var_name.len() as int] == '.'
}

/// The path that `name` stands for among the fields from index `k` on, in at most `room`
/// indices. The first field whose name is `name`, or is followed in `name` by a dot,
/// decides: in the first case the path ends at the field, in the second the rest of the
/// name is resolved below it. Fields past index 255 have no path.
pub open spec fn resolve_from(fields: Seq<Rc<Field>>, name: Seq<char>, room: nat, k: nat) -> Option<
    Seq<u8>,
>
    decreases room, 0nat, fields.len() - k,
{
    if room == 0 || k >= fields.len() || k >= 256 {
        None
    } else {
        let f = *fields[k as int];
        if name == f.var_name@ {
            Some(seq![k as u8])
        } else if names_below(name, f.var_name@) {
            match field_resolve(f, name.skip(f.var_name@.len() as int + 1), (room - 1) as nat) {
                Some(rest) => Some(seq![k as u8] + rest),
                None => None,
            }
        } else {
            resolve_from(fields, name, room, k + 1)
        }
    }
}

/// The path that a property name stands for in a serializer of the given fields.
pub open spec fn serializer_resolve(fields: Seq<Rc<Field>>, name: Seq<char>) -> Option<Seq<u8>> {
    resolve_from(fields, name, 7, 0)
}

/// The paths that the fields from index `k` on, which stand below the path `prefix`,
/// contribute to the listing of the state `tree`: those of each field, field after field.
/// Fields past index 255 have no path, and no path has more than seven indices.
pub open spec fn paths_from(fields: Seq<Rc<Field>>, prefix: Seq<u8>, tree: Seq<Slot>, k: nat) -> Seq<
    Seq<u8>,
>
    decreases fields.len() - k,
{
    if prefix.len() >= 7 || k >= fields.len() || k >= 256 {
        Seq::empty()
    } else {
        field_paths(prefix.push(k as u8), tree) + paths_from(fields, prefix, tree, k + 1)
    }
}

/// Whether the path `q` leads below the path `prefix`, through one of the fields from
/// index `k` on, to a value that the state stores, in at most seven indices.
pub open spec fn listed_from(
    fields: Seq<Rc<Field>>,
    prefix: Seq<u8>,
    tree: Seq<Slot>,
    k: nat,
    q: Seq<u8>,
) -> bool {
    &&& prefix.len() < q.len() <= 7
    &&& q.take(prefix.len() as int) == prefix
    &&& k <= q[prefix.len() as int] < fields.len()
    &&& tree_value(tree, q) is Some
}

/// The listing holds exactly the paths through the fields at which values are stored:
/// no path of an absent slot, and every stored value that a field leads to.
pub proof fn lemma_paths_from(
    fields: Seq<Rc<Field>>,
    prefix: Seq<u8>,
    tree: Seq<Slot>,
    k: nat,
    q: Seq<u8>,
)
    requires
        prefix.len() < 7,
    ensures
        paths_from(fields, prefix, tree, k).contains(q) <==> listed_from(
            fields,
            prefix,
            tree,
            k,
            q,
        ),
    decreases fields.len() - k,
{
    let n = prefix.len() as int;
    if k >= fields.len() || k >= 256 {
        assert(!paths_from(fields, prefix, tree, k).contains(q));
    } else {
        let here = prefix.push(k as u8);
        let head = field_paths(here, tree);
        let tail = paths_from(fields, prefix, tree, k + 1);
        lemma_contains_concat(head, tail, q);
        lemma_paths_from(fields, prefix, tree, k + 1, q);
        lemma_stored_under(tree, here, q);
        if q.len() > n {
            assert(q.take(n + 1) == here <==> q.take(n) == prefix && q[n] == k) by {
                if q.take(n + 1) == here {
                    assert(q.take(n) =~= q.take(n + 1).take(n));
                    assert(here.take(n) =~= prefix);
                    assert(q.take(n + 1)[n] == q[n]);
                }
                if q.take(n) == prefix && q[n] == k {
                    assert(q.take(n + 1) =~= q.take(n).push(q[n]));
                }
            }
        }
    }
}

/// The listing is in lexicographic order: each path comes before those listed after it.
pub proof fn lemma_paths_from_ordered(
    fields: Seq<Rc<Field>>,
    prefix: Seq<u8>,
    tree: Seq<Slot>,
    k: nat,
    a: int,
    b: int,
)
    requires
        0 <= a < b < paths_from(fields, prefix, tree, k).len(),
    ensures
        comes_before(
            paths_from(fields, prefix, tree, k)[a],
            paths_from(fields, prefix, tree, k)[b],
        ),
    decreases fields.len() - k,
{
    let n = prefix.len() as int;
    let here = prefix.push(k as u8);
    let head = field_paths(here, tree);
    let tail = paths_from(fields, prefix, tree, k + 1);
    assert(paths_from(fields, prefix, tree, k) == head + tail);
    if b < head.len() {
        lemma_stored_under_ordered(tree, here, a, b);
    } else if a >= head.len() {
        lemma_paths_from_ordered(fields, prefix, tree, k + 1, a - head.len(), b - head.len());
    } else {
        let x = head[a];
        let y = tail[b - head.len()];
        assert(head.contains(x));
        assert(tail.contains(y));
        lemma_stored_under(tree, here, x);
        lemma_paths_from(fields, prefix, tree, k + 1, y);
        assert(x.take(n) =~= x.take(n + 1).take(n));
        assert(here.take(n) =~= prefix);
        assert(x.take(n + 1)[n] == x[n]);
        assert(x.take(n) == y.take(n));
        assert(x[n] < y[n]);
    }
}

/// Why a name has no field path.
#[derive(Debug)]
pub enum SerializerError {
    /// No field path stands for the name.
    NoFieldPath(String),
}

/// `rustc_hash::FxBuildHasher`, the hasher factory of the name cache. Nothing is known of
/// a value of it.
#[verifier::external_type_specification]
#[verifier::external_body]
pub struct ExFxBuildHasher(FxBuildHasher);

/// What an `FxHashMap` from names to field paths holds: the path kept under each name.
/// What the map's methods do to it is taken on trust from `cache_new`, `cache_get` and
/// `cache_insert`.
pub uninterp spec fn cache_entries(cache: FxHashMap<Box<str>, FieldPath>) -> Map<Seq<char>, FieldPath>;

/// `FxHashMap::default`: a map that holds nothing.
#[verifier::external_body]
fn cache_new() -> (cache: FxHashMap<Box<str>, FieldPath>)
    ensures
        forall|name: Seq<char>| !cache_entries(cache).contains_key(name),
{
    FxHashMap::default()
}

/// `HashMap::get`: the path that the map holds under `name`, `None` where it holds none.
#[verifier::external_body]
fn cache_get<'a>(cache: &'a FxHashMap<Box<str>, FieldPath>, name: &str) -> (hit: Option<
    &'a FieldPath,
>)
    ensures
        hit is Some <==> cache_entries(*cache).contains_key(name@),
        hit is Some ==> *hit->0 == cache_entries(*cache)[name@],
{
    cache.get(name)
}

/// `HashMap::insert`, with the name as a boxed string for the key: afterwards the map
/// holds `fp` under `name`, and under every other name what it held before.
#[verifier::external_body]
fn cache_insert(cache: &mut FxHashMap<Box<str>, FieldPath>, name: &str, fp: FieldPath)
    ensures
        cache_entries(*final(cache)) == cache_entries(*old(cache)).insert(name@, fp),
{
    cache.insert(name.into(), fp);
}

/// What a name cache may hold: under a name, only the path that the name resolves to.
pub struct Resolution {
    pub resolve: spec_fn(Seq<char>) -> Option<Seq<u8>>,
}

impl Predicate<FxHashMap<Box<str>, FieldPath>> for Resolution {
    open spec fn predicate(&self, cache: FxHashMap<Box<str>, FieldPath>) -> bool {
        forall|name: Seq<char>| #[trigger]
            cache_entries(cache).contains_key(name) ==> (self.resolve)(name) == Some(
                cache_entries(cache)[name]@,
            )
    }
}

impl SerializerError {
    /// The error in words.
    pub open spec fn text(self) -> Seq<char> {
        match self {
            SerializerError::NoFieldPath(name) => "No field path for given name "@ + name@,
        }
    }

    /// The error in words.
    pub fn message(&self) -> (text: String)
        ensures
            text@ == self.text(),
    {
        match self {
            SerializerError::NoFieldPath(name) => {
                let mut text: String = "No field path for given name ".to_owned();
                text.append(name.as_str());
                text
            },
        }
    }
}

/// An ordered list of fields, with a cache of the names resolved so far.
///
/// The cache sits in a cell, so that a lookup through a shared reference can fill it. The
/// cell does not free what it holds when it is dropped: a serializer is meant to live as
/// long as its schema is in use.
pub struct Serializer {
    fields: Vec<Rc<Field>>,
    fp_cache: InvCell<FxHashMap<Box<str>, FieldPath>, Resolution>,
}

impl Serializer {
    /// The fields, in order.
    pub closed spec fn spec_fields(&self) -> Seq<Rc<Field>> {
        self.fields@
    }

    #[verifier::type_invariant]
    spec fn cache_is_of_fields(self) -> bool {
        forall|name: Seq<char>| #[trigger]
            (self.fp_cache.predicate().resolve)(name) == serializer_resolve(self.fields@, name)
    }
}

impl Serializer {
    /// The serializer with no fields.
    pub fn new() -> (s: Serializer)
        ensures
            s.spec_fields() == Seq::<Rc<Field>>::empty(),
    {
        Serializer::from_fields(Vec::new())
    }

    /// The serializer of the given fields.
    pub fn from_fields(fields: Vec<Rc<Field>>) -> (s: Serializer)
        ensures
            s.spec_fields() == fields@,
    {
        let ghost rows = fields@;
        let ghost oracle = Resolution {
            resolve: |name: Seq<char>| serializer_resolve(rows, name),
        };
        Serializer { fields, fp_cache: InvCell::new(cache_new(), Ghost(oracle)) }
    }

    /// The fields, in order.
    pub fn fields(&self) -> (fields: &Vec<Rc<Field>>)
        ensures
            fields@ == self.spec_fields(),
    {
        &self.fields
    }

    /// Adds a field after those already there. The names resolved so far are forgotten.
    pub fn push_field(&mut self, field: Rc<Field>)
        ensures
            final(self).spec_fields() == old(self).spec_fields().push(field),
    {
        let mut taken: Serializer = Serializer::new();
        std::mem::swap(self, &mut taken);
        let Serializer { fields, fp_cache } = taken;
        let _ = fp_cache.into_inner();
        let mut fields: Vec<Rc<Field>> = fields;
        fields.push(field);
        *self = Serializer::from_fields(fields);
    }

    /// The field path that the property name `name` stands for. A name that resolved
    /// once is answered from the cache.
    pub fn get_field_path_for_name(&self, name: &str) -> (res: Result<FieldPath, SerializerError>)
        ensures
            res is Ok <==> serializer_resolve(self.spec_fields(), name@) is Some,
            res matches Ok(fp) ==> fp@ == serializer_resolve(self.spec_fields(), name@)->0,
            res matches Err(e) ==> e matches SerializerError::NoFieldPath(n) && n@ == name@,
    {
        proof {
            use_type_invariant(self);
        }
        let mut cache: FxHashMap<Box<str>, FieldPath> = self.fp_cache.replace(cache_new());
        let hit: Option<FieldPath> = match cache_get(&cache, name) {
            Some(fp) => Some(*fp),
            None => None,
        };
        let res: Result<FieldPath, SerializerError> = match hit {
            Some(fp) => {
                assert(cache_entries(cache).contains_key(name@));
                assert((self.fp_cache.predicate().resolve)(name@) == Some(fp@));
                Ok(fp)
            },
            None => {
                let resolved: Result<FieldPath, SerializerError> = self.resolve_name(name);
                match &resolved {
                    Ok(fp) => {
                        let ghost before = cache_entries(cache);
                        cache_insert(&mut cache, name, *fp);
                        assert forall|n: Seq<char>| #[trigger]
                            cache_entries(cache).contains_key(n) implies (
                        self.fp_cache.predicate().resolve)(n) == Some(cache_entries(cache)[n]@) by {
                            if n != name@ {
                                assert(before.contains_key(n));
                            }
                        }
                    },
                    Err(_) => {},
                }
                resolved
            },
        };
        let _ = self.fp_cache.replace(cache);
        res
    }

    /// The name of what `fp` leads to.
    pub fn get_name_for_field_path(&self, fp: &FieldPath) -> (name: String)
        ensures
            name@ == serializer_name(self.spec_fields(), fp@),
    {
        assert(fp@.skip(0) =~= fp@);
        self.name_from(fp, 0)
    }

    /// The type of what `fp` leads to: `None` where a type on the way is not resolved or
    /// the path leaves the schema.
    pub fn get_type_for_field_path(&self, fp: &FieldPath) -> (t: Option<&FieldType>)
        ensures
            t is None <==> serializer_type(self.spec_fields(), fp@) is None,
            t matches Some(r) ==> serializer_type(self.spec_fields(), fp@) == Some(*r),
    {
        assert(fp@.skip(0) =~= fp@);
        self.type_from(fp, 0)
    }

    /// The decoder that reads what `fp` leads to: `None` where the path leaves the schema.
    pub fn get_decoder_for_field_path(&self, fp: &FieldPath) -> (d: Option<&Decoders>)
        ensures
            d is None <==> serializer_decoder(self.spec_fields(), fp@) is None,
            d matches Some(r) ==> serializer_decoder(self.spec_fields(), fp@) == Some(*r),
    {
        assert(fp@.skip(0) =~= fp@);
        self.decoder_from(fp, 0)
    }

    /// The field path that the property name `name` stands for, worked out from the
    /// fields.
    pub fn resolve_name(&self, name: &str) -> (res: Result<FieldPath, SerializerError>)
        ensures
            res is Ok <==> serializer_resolve(self.spec_fields(), name@) is Some,
            res matches Ok(fp) ==> fp@ == serializer_resolve(self.spec_fields(), name@)->0,
            res matches Err(e) ==> e matches SerializerError::NoFieldPath(n) && n@ == name@,
    {
        let chars: Vec<char> = chars_of(name);
        let mut fp: FieldPath = FieldPath::new();
        assert(chars@.skip(0) =~= name@);
        assert(room(fp@) == 7);
        if self.resolve_in(&mut fp, &chars, 0) {
            assert(seq![0u8].drop_last() + serializer_resolve(self.spec_fields(), name@)->0
                =~= serializer_resolve(self.spec_fields(), name@)->0);
            Ok(fp)
        } else {
            Err(SerializerError::NoFieldPath(name.to_owned()))
        }
    }

    /// Resolves the name that `name` holds from `offset` on among this serializer's
    /// fields, and writes its path into `fp` from the deepest index on. Returns whether
    /// the name stands for a path; where it does not, `fp` is left as it was.
    pub fn resolve_in(&self, fp: &mut FieldPath, name: &Vec<char>, offset: usize) -> (found: bool)
        requires
            offset <= name@.len(),
        ensures
            found <==> resolve_from(
                self.spec_fields(),
                name@.skip(offset as int),
                room(old(fp)@),
                0,
            ) is Some,
            found ==> final(fp)@ == old(fp)@.drop_last() + resolve_from(
                self.spec_fields(),
                name@.skip(offset as int),
                room(old(fp)@),
                0,
            )->0,
            !found ==> *final(fp) == *old(fp),
        decreases 8 - old(fp)@.len(), 0nat,
    {
        let len: usize = fp.len();
        let total: usize = name.len();
        let ghost rest = name@.skip(offset as int);
        let ghost space = room(fp@);
        let mut k: usize = 0;
        while k < self.fields.len() && k < 256
            invariant
                k <= self.fields@.len(),
                k <= 256,
                offset <= name@.len() == total,
                rest == name@.skip(offset as int),
                *fp == *old(fp),
                1 <= len == fp@.len() <= 7,
                space == room(fp@),
                space >= 1,
                resolve_from(self.spec_fields(), rest, space, 0) == resolve_from(
                    self.spec_fields(),
                    rest,
                    space,
                    k as nat,
                ),
            decreases self.fields@.len() - k,
        {
            let field: &Field = &self.fields[k];
            let var_name: Vec<char> = chars_of(field.var_name.as_str());
            let n: usize = var_name.len();
            if occurs_at(name, offset, &var_name) {
                assert(rest.take(n as int) =~= name@.subrange(offset as int, offset + n));
                if total - offset == n {
                    assert(rest =~= rest.take(n as int));
                    fp.set(len - 1, k as u8);
                    assert(fp@ =~= old(fp)@.drop_last() + seq![k as u8]);
                    return true;
                }
                assert(rest.len() != n);
                assert(rest[n as int] == name@[offset + n]);
                if name[offset + n] == '.' {
                    assert(names_below(rest, field.var_name@));
                    assert(rest.skip(n + 1) =~= name@.skip(offset + n + 1));
                    if len >= 7 {
                        proof {
                            lemma_no_room(*field, rest.skip(n + 1));
                            assert(space - 1 == 0);
                            assert(resolve_from(self.spec_fields(), rest, space, k as nat) is None);
                        }
                        return false;
                    }
                    let saved: FieldPath = *fp;
                    fp.set(len - 1, k as u8);
                    fp.down();
                    let ghost mid = fp@;
                    assert(mid.drop_last() =~= old(fp)@.drop_last() + seq![k as u8]);
                    assert(room(mid) == space - 1);
                    let found: bool = field.get_field_path_for_name(fp, name, offset + n + 1);
                    proof {
                        if found {
                            let tail = field_resolve(*field, rest.skip(n + 1), room(mid))->0;
                            assert(fp@ =~= old(fp)@.drop_last() + (seq![k as u8] + tail));
                        }
                    }
                    if !found {
                        *fp = saved;
                    }
                    return found;
                }
            } else {
                proof {
                    if rest.len() >= n {
                        assert(rest.take(n as int) =~= name@.subrange(offset as int, offset + n));
                    }
                    if rest == field.var_name@ {
                        assert(rest.take(n as int) =~= rest);
                    }
                }
            }
            k += 1;
        }
        false
    }

    /// The paths that the schema lists for the state `st` below the path that `fp` holds
    /// above its deepest index: those of each field, field after field. `fp` is used as
    /// the cursor and is the same afterwards.
    pub fn get_field_paths(&self, fp: &mut FieldPath, st: &FieldState) -> (paths: Vec<FieldPath>)
        ensures
            *final(fp) == *old(fp),
            path_views(paths@) == paths_from(
                self.spec_fields(),
                old(fp)@.drop_last(),
                st.tree(),
                0,
            ),
            forall|q: Seq<u8>|
                path_views(paths@).contains(q) <==> listed_from(
                    self.spec_fields(),
                    old(fp)@.drop_last(),
                    st.tree(),
                    0,
                    q,
                ),
            forall|a: int, b: int|
                0 <= a < b < paths@.len() ==> comes_before(
                    #[trigger] path_views(paths@)[a],
                    #[trigger] path_views(paths@)[b],
                ),
    {
        let saved: FieldPath = *fp;
        let len: usize = fp.len();
        proof {
            let listed = paths_from(self.spec_fields(), fp@.drop_last(), st.tree(), 0);
            assert forall|q: Seq<u8>|
                listed.contains(q) <==> listed_from(
                    self.spec_fields(),
                    fp@.drop_last(),
                    st.tree(),
                    0,
                    q,
                ) by {
                lemma_paths_from(self.spec_fields(), fp@.drop_last(), st.tree(), 0, q);
            }
            assert forall|a: int, b: int| 0 <= a < b < listed.len() implies comes_before(
                #[trigger] listed[a],
                #[trigger] listed[b],
            ) by {
                lemma_paths_from_ordered(self.spec_fields(), fp@.drop_last(), st.tree(), 0, a, b);
            }
        }
        let ghost prefix = fp@.drop_last();
        let ghost tree = st.tree();
        let mut paths: Vec<FieldPath> = Vec::new();
        assert(path_views(paths@) =~= Seq::<Seq<u8>>::empty());
        let mut k: usize = 0;
        while k < self.fields.len() && k < 256
            invariant
                k <= self.fields@.len(),
                k <= 256,
                1 <= len == fp@.len() <= 7,
                fp@.drop_last() == prefix,
                prefix == old(fp)@.drop_last(),
                tree == st.tree(),
                path_views(paths@) + paths_from(self.spec_fields(), prefix, tree, k as nat)
                    == paths_from(self.spec_fields(), prefix, tree, 0),
            decreases self.fields@.len() - k,
        {
            fp.set(len - 1, k as u8);
            assert(fp@ =~= prefix.push(k as u8));
            let ghost before = paths@;
            let mut found: Vec<FieldPath> = self.fields[k].get_field_paths(fp, st);
            let ghost added = found@;
            paths.append(&mut found);
            proof {
                assert(path_views(paths@) =~= path_views(before) + path_views(added));
                assert(path_views(paths@) + paths_from(
                    self.spec_fields(),
                    prefix,
                    tree,
                    (k + 1) as nat,
                ) =~= path_views(before) + paths_from(self.spec_fields(), prefix, tree, k as nat));
                assert(fp@.drop_last() =~= prefix);
            }
            k += 1;
        }
        assert(path_views(paths@) + Seq::<Seq<u8>>::empty() =~= path_views(paths@));
        *fp = saved;
        paths
    }

    /// The name of what the indices of `fp` from position `pos` on lead to.
    pub fn name_from(&self, fp: &FieldPath, pos: usize) -> (name: String)
        requires
            pos <= fp@.len(),
        ensures
            name@ == serializer_name(self.spec_fields(), fp@.skip(pos as int)),
        decreases fp@.len() - pos, 0nat,
    {
        if pos >= fp.len() {
            return String::new();
        }
        let idx: usize = fp.get(pos) as usize;
        if idx >= self.fields.len() {
            return String::new();
        }
        assert(fp@.skip(pos as int).skip(1) =~= fp@.skip(pos + 1));
        self.fields[idx].get_name_for_field_path(fp, pos + 1)
    }

    /// The type of what the indices of `fp` from position `pos` on lead to.
    pub fn type_from(&self, fp: &FieldPath, pos: usize) -> (t: Option<&FieldType>)
        requires
            pos <= fp@.len(),
        ensures
            t is None <==> serializer_type(self.spec_fields(), fp@.skip(pos as int)) is None,
            t matches Some(r) ==> serializer_type(self.spec_fields(), fp@.skip(pos as int))
                == Some(*r),
        decreases fp@.len() - pos, 0nat,
    {
        if pos >= fp.len() {
            return None;
        }
        let idx: usize = fp.get(pos) as usize;
        if idx >= self.fields.len() {
            return None;
        }
        assert(fp@.skip(pos as int).skip(1) =~= fp@.skip(pos + 1));
        self.fields[idx].get_type_for_field_path(fp, pos + 1)
    }

    /// The decoder of what the indices of `fp` from position `pos` on lead to.
    pub fn decoder_from(&self, fp: &FieldPath, pos: usize) -> (d: Option<&Decoders>)
        requires
            pos <= fp@.len(),
        ensures
            d is None <==> serializer_decoder(self.spec_fields(), fp@.skip(pos as int)) is None,
            d matches Some(r) ==> serializer_decoder(self.spec_fields(), fp@.skip(pos as int))
                == Some(*r),
        decreases fp@.len() - pos, 0nat,
    {
        if pos >= fp.len() {
            return None;
        }
        let idx: usize = fp.get(pos) as usize;
        if idx >= self.fields.len() {
            return None;
        }
        assert(fp@.skip(pos as int).skip(1) =~= fp@.skip(pos + 1));
        self.fields[idx].get_decoder_for_field_path(fp, pos + 1)
    }
}

/// A name that resolves among the fields from index `k` on is the name of the path it
/// resolves to, and that path has between one and `room` indices.
pub proof fn lemma_resolve_from_names(fields: Seq<Rc<Field>>, name: Seq<char>, room: nat, k: nat)
    requires
        resolve_from(fields, name, room, k) is Some,
    ensures
        1 <= resolve_from(fields, name, room, k)->0.len() <= room,
        serializer_name(fields, resolve_from(fields, name, room, k)->0) == name,
    decreases room, 0nat, fields.len() - k,
{
    let f = *fields[k as int];
    let p = resolve_from(fields, name, room, k)->0;
    if name == f.var_name@ {
        assert(p.skip(1) =~= Seq::<u8>::empty());
        assert(field_name(f, p.skip(1)) =~= name);
    } else if names_below(name, f.var_name@) {
        let below = name.skip(f.var_name@.len() as int + 1);
        lemma_field_resolve_names(f, below, (room - 1) as nat);
        let rest = field_resolve(f, below, (room - 1) as nat)->0;
        assert(p.skip(1) =~= rest);
        assert(name =~= f.var_name@ + seq!['.'] + below);
    } else {
        lemma_resolve_from_names(fields, name, room, k + 1);
    }
}

/// A name that resolves below a field is, after the field's own name and a dot, the name
/// of the path it resolves to, and that path has between one and `room` indices.
pub proof fn lemma_field_resolve_names(f: Field, name: Seq<char>, room: nat)
    requires
        field_resolve(f, name, room) is Some,
    ensures
        1 <= field_resolve(f, name, room)->0.len() <= room,
        field_name(f, field_resolve(f, name, room)->0) == f.var_name@ + seq!['.'] + name,
    decreases room, 1nat, 0nat,
{
    let rest = field_resolve(f, name, room)->0;
    match f.model {
        FieldModels::Simple => {},
        FieldModels::FixedArray | FieldModels::VariableArray => {
            lemma_pad4_of_parse(name);
        },
        FieldModels::FixedTable => {
            lemma_resolve_from_names(child_fields(f), name, room, 0);
        },
        FieldModels::VariableTable => {
            lemma_pad4_of_parse(name.take(4));
            lemma_resolve_from_names(child_fields(f), name.skip(5), (room - 1) as nat, 0);
            let tail = resolve_from(child_fields(f), name.skip(5), (room - 1) as nat, 0)->0;
            assert(rest.skip(1) =~= tail);
            assert(name =~= name.take(4) + seq!['.'] + name.skip(5));
            assert(field_name(f, rest) =~= f.var_name@ + seq!['.'] + name);
        },
    }
}

/// A property name that resolves to a field path is the name of that path.
pub proof fn lemma_name_round_trip(fields: Seq<Rc<Field>>, name: Seq<char>)
    requires
        serializer_resolve(fields, name) is Some,
    ensures
        serializer_name(fields, serializer_resolve(fields, name)->0) == name,
        1 <= serializer_resolve(fields, name)->0.len() <= 7,
{
    lemma_resolve_from_names(fields, name, 7, 0);
}

/// With no index left, nothing is found below a field.
pub proof fn lemma_no_room(f: Field, name: Seq<char>)
    ensures
        field_resolve(f, name, 0) is None,
{
}

} // verus!
