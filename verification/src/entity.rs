//! Entities and the table of the live ones.

use crate::class::Class;
use crate::field::Field;
use crate::field_path::{path_text, path_views, FieldPath};
use crate::field_state::{tree_clear, tree_put, tree_value, FieldState, Slot};
use crate::field_type::type_text;
use crate::field_value::FieldValue;
use crate::serializer::{
    lemma_name_round_trip, paths_from, serializer_name, serializer_resolve, serializer_type,
    SerializerError,
};
use crate::table::{are_plain, plain, plain_rows, render_table, table_text, ESCAPE};
use crate::text::{
    decimal, decimal_string, lemma_decimal_is_digits, push_decimal, push_signed_decimal,
    same_text, signed_decimal,
};
use std::rc::Rc;
use vstd::prelude::*;
use vstd::string::StringExecFns;

verus! {

/// The number of entity slots.
pub const MAX_ENTITIES: usize = 8192;

/// What happened to an entity in a packet.
#[derive(Debug, Clone, Copy, Eq, PartialEq)]
pub enum EntityEvents {
    Created,
    Updated,
    Deleted,
}

impl EntityEvents {
    /// The event that the two command bits of an entity header announce: `0` an update,
    /// `2` a creation, `3` a deletion.
    pub fn from_cmd(cmd: u32) -> (event: EntityEvents)
        requires
            cmd == 0 || cmd == 2 || cmd == 3,
        ensures
            event == (match cmd {
                0u32 => EntityEvents::Updated,
                2u32 => EntityEvents::Created,
                _ => EntityEvents::Deleted,
            }),
    {
        match cmd {
            0 => EntityEvents::Updated,
            2 => EntityEvents::Created,
            _ => EntityEvents::Deleted,
        }
    }
}

/// Why a lookup found nothing.
#[derive(Debug)]
pub enum EntityError {
    /// No entity lives at the index.
    IndexNotFound(usize),
    /// No entity has the handle.
    HandleNotFound(usize),
    /// No entity is of the class with the id.
    ClassIdNotFound(i32),
    /// No entity is of the class with the name.
    ClassNameNotFound(String),
    /// The entity holds no value for the property: its name, the entity's class name, and
    /// the property's field path.
    PropertyNameNotFound(String, String, String),
    /// The property name stands for no field path.
    FieldPathNotFound(SerializerError),
}

impl EntityError {
    /// The error in words.
    pub open spec fn text(self) -> Seq<char> {
        match self {
            EntityError::IndexNotFound(index) => "No entities found at index "@ + decimal(
                index as nat,
            ),
            EntityError::HandleNotFound(handle) => "No entities found for handle "@ + decimal(
                handle as nat,
            ),
            EntityError::ClassIdNotFound(id) => "No entities found for class with id "@
                + signed_decimal(id as int),
            EntityError::ClassNameNotFound(name) => "No entities found for class with name "@
                + name@,
            EntityError::PropertyNameNotFound(name, class, path) => "No property found for name "@
                + name@ + " (Class: "@ + class@ + ", FieldPath: "@ + path@ + ")"@,
            EntityError::FieldPathNotFound(e) => e.text(),
        }
    }

    /// The error in words.
    pub fn message(&self) -> (text: String)
        ensures
            text@ == self.text(),
    {
        match self {
            EntityError::IndexNotFound(index) => {
                let mut text: String = "No entities found at index ".to_owned();
                push_decimal(&mut text, *index as u64);
                text
            },
            EntityError::HandleNotFound(handle) => {
                let mut text: String = "No entities found for handle ".to_owned();
                push_decimal(&mut text, *handle as u64);
                text
            },
            EntityError::ClassIdNotFound(id) => {
                let mut text: String = "No entities found for class with id ".to_owned();
                push_signed_decimal(&mut text, *id as i64);
                text
            },
            EntityError::ClassNameNotFound(name) => {
                let mut text: String = "No entities found for class with name ".to_owned();
                text.append(name.as_str());
                text
            },
            EntityError::PropertyNameNotFound(name, class, path) => {
                let mut text: String = "No property found for name ".to_owned();
                text.append(name.as_str());
                text.append(" (Class: ");
                text.append(class.as_str());
                text.append(", FieldPath: ");
                text.append(path.as_str());
                text.append(")");
                text
            },
            EntityError::FieldPathNotFound(e) => e.message(),
        }
    }
}

/// One row of the table of an entity's properties.
pub struct PropertyRow {
    /// The field path of the property.
    pub path: FieldPath,
    /// The dotted name of the property.
    pub name: String,
    /// The type of the property as text; empty where the schema does not resolve it.
    pub field_type: String,
    /// The value that the entity holds for the property.
    pub value: FieldValue,
}

/// Whether `row` is the row of the property at the field path `path` of the entity `e`.
pub open spec fn is_property_row(row: PropertyRow, e: EntityView, path: Seq<u8>) -> bool {
    &&& row.path@ == path
    &&& row.name@ == serializer_name(e.fields(), path)
    &&& row.field_type@ == (match serializer_type(e.fields(), path) {
        Some(t) => type_text(t@),
        None => Seq::empty(),
    })
    &&& tree_value(e.state, path) == Some(row.value)
}

/// The handle of the entity with the given serial at the given index.
pub open spec fn handle_of(serial: u32, index: u32) -> u32 {
    serial << 14 | index
}

/// A networked game object: a slot index, a serial, a class, and the state of its fields.
pub struct Entity {
    index: u32,
    serial: u32,
    pub(crate) class: Rc<Class>,
    pub(crate) state: FieldState,
}

/// The mathematical model of an entity.
pub struct EntityView {
    pub index: u32,
    pub serial: u32,
    pub class: Class,
    pub state: Seq<Slot>,
}

impl EntityView {
    /// The handle: the serial above the fourteen bits of the index.
    pub open spec fn handle(self) -> u32 {
        handle_of(self.serial, self.index)
    }

    /// The fields of the serializer of the class.
    pub open spec fn fields(self) -> Seq<Rc<Field>> {
        self.class.serializer.spec_fields()
    }
}

impl View for Entity {
    type V = EntityView;

    closed spec fn view(&self) -> EntityView {
        EntityView {
            index: self.index,
            serial: self.serial,
            class: *self.class,
            state: self.state.tree(),
        }
    }
}

impl Entity {
    #[verifier::type_invariant]
    spec fn inv(self) -> bool {
        self.index < MAX_ENTITIES
    }

    /// The entity at `index` with the given serial, class and state.
    pub fn new(index: u32, serial: u32, class: Rc<Class>, state: FieldState) -> (entity: Entity)
        requires
            index < MAX_ENTITIES,
        ensures
            entity@ == (EntityView { index, serial, class: *class, state: state.tree() }),
    {
        Entity { index, serial, class, state }
    }

    /// The entity's index, which is below 8192.
    pub fn index(&self) -> (index: u32)
        ensures
            index == self@.index,
            index < MAX_ENTITIES,
    {
        proof {
            use_type_invariant(self);
        }
        self.index
    }

    /// The entity's serial.
    pub fn serial(&self) -> (serial: u32)
        ensures
            serial == self@.serial,
    {
        self.serial
    }

    /// The entity's handle: the serial above the fourteen bits of the index.
    pub fn handle(&self) -> (handle: u32)
        ensures
            handle == (self@.serial << 14) | self@.index,
            handle == self@.handle(),
    {
        self.serial << 14 | self.index
    }

    /// The entity's class.
    pub fn class(&self) -> (class: &Class)
        ensures
            *class == self@.class,
    {
        &*self.class
    }

    /// The state of the entity's fields.
    pub fn state(&self) -> (state: &FieldState)
        ensures
            state.tree() == self@.state,
    {
        &self.state
    }

    /// The value of the property with the dotted name `name`. An element of an array is
    /// named by its four-digit, zero-padded index after the array's name.
    pub fn get_property_by_name(&self, name: &str) -> (res: Result<&FieldValue, EntityError>)
        ensures
            match serializer_resolve(self@.fields(), name@) {
                None => res matches Err(EntityError::FieldPathNotFound(e)) && e
                    matches SerializerError::NoFieldPath(n) && n@ == name@,
                Some(path) => match tree_value(self@.state, path) {
                    Some(value) => res matches Ok(v) && *v == value,
                    None => res matches Err(EntityError::PropertyNameNotFound(n, c, p)) && n@
                        == name@ && c@ == self@.class.name@ && p@ == path_text(path),
                },
            },
    {
        match self.class.serializer.get_field_path_for_name(name) {
            Ok(fp) => {
                proof {
                    lemma_name_round_trip(self@.fields(), name@);
                }
                self.get_property_by_field_path(&fp)
            },
            Err(e) => Err(EntityError::FieldPathNotFound(e)),
        }
    }

    /// The rows of the table of the entity's properties: one for each field path at which
    /// the entity holds a value below a field of its class, in lexicographic order.
    pub fn properties(&self) -> (rows: Vec<PropertyRow>)
        ensures
            rows@.len() == paths_from(self@.fields(), Seq::empty(), self@.state, 0).len(),
            forall|i: int|
                0 <= i < rows@.len() ==> is_property_row(
                    #[trigger] rows@[i],
                    self@,
                    paths_from(self@.fields(), Seq::empty(), self@.state, 0)[i],
                ),
    {
        let mut cursor: FieldPath = FieldPath::new();
        assert(cursor@.drop_last() =~= Seq::<u8>::empty());
        let paths: Vec<FieldPath> = self.class.serializer.get_field_paths(&mut cursor, &self.state);
        let ghost listed = paths_from(self@.fields(), Seq::empty(), self@.state, 0);
        let mut rows: Vec<PropertyRow> = Vec::new();
        let mut i: usize = 0;
        while i < paths.len()
            invariant
                i <= paths@.len(),
                listed == path_views(paths@),
                forall|q: Seq<u8>|
                    path_views(paths@).contains(q) ==> tree_value(self@.state, q) is Some,
                rows@.len() == i,
                forall|j: int| 0 <= j < i ==> is_property_row(#[trigger] rows@[j], self@, listed[j]),
            decreases paths@.len() - i,
        {
            let fp: &FieldPath = &paths[i];
            assert(listed[i as int] == fp@);
            let field_type: String = match self.class.serializer.get_type_for_field_path(fp) {
                Some(t) => t.as_string(),
                None => String::new(),
            };
            assert(tree_value(self@.state, fp@) is Some) by {
                assert(path_views(paths@)[i as int] == fp@);
                assert(path_views(paths@).contains(fp@));
            }
            match self.state.get_value(fp) {
                Some(v) => {
                    rows.push(
                        PropertyRow {
                            path: *fp,
                            name: self.class.serializer.get_name_for_field_path(fp),
                            field_type,
                            value: v.duplicate(),
                        },
                    );
                },
                None => {},
            }
            i += 1;
        }
        rows
    }

    /// The value that the entity holds at the field path `fp`.
    pub fn get_property_by_field_path(&self, fp: &FieldPath) -> (res: Result<
        &FieldValue,
        EntityError,
    >)
        ensures
            res is Ok <==> tree_value(self@.state, fp@) is Some,
            res matches Ok(v) ==> tree_value(self@.state, fp@) == Some(*v),
            res matches Err(e) ==> e matches EntityError::PropertyNameNotFound(n, c, p) && n@
                == serializer_name(self@.fields(), fp@) && c@ == self@.class.name@ && p@
                == path_text(fp@),
    {
        match self.state.get_value(fp) {
            Some(v) => Ok(v),
            None => Err(
                EntityError::PropertyNameNotFound(
                    self.class.serializer.get_name_for_field_path(fp),
                    self.class.name.clone(),
                    fp.as_string(),
                ),
            ),
        }
    }
}

/// `Rc::clone`: another pointer to the same class.
#[verifier::external_body]
fn share(class: &Rc<Class>) -> (shared: Rc<Class>)
    ensures
        *shared == **class,
{
    Rc::clone(class)
}

impl Clone for Entity {
    /// A copy of the entity: of the same class, with a state of its own.
    fn clone(&self) -> (copy: Entity)
        ensures
            copy@ == self@,
    {
        proof {
            use_type_invariant(self);
        }
        Entity {
            index: self.index,
            serial: self.serial,
            class: share(&self.class),
            state: self.state.duplicate(),
        }
    }
}

/// Whether every slot's entity, if any, carries the slot's index.
pub open spec fn slots_wf(slots: Seq<Option<EntityView>>) -> bool {
    &&& slots.len() == MAX_ENTITIES
    &&& forall|i: int|
        0 <= i < slots.len() ==> (#[trigger] slots[i] matches Some(e) ==> e.index == i)
}

/// The entity in the slot `index`; none where the slot is empty or there is no such slot.
pub open spec fn at_index(slots: Seq<Option<EntityView>>, index: int) -> Option<EntityView> {
    if 0 <= index < slots.len() {
        slots[index]
    } else {
        None
    }
}

/// The entity with the handle `handle`: the one in the slot that the low fourteen bits
/// name, provided its handle is `handle`.
pub open spec fn at_handle(slots: Seq<Option<EntityView>>, handle: usize) -> Option<EntityView> {
    match at_index(slots, (handle & 0x3fff) as int) {
        Some(e) if e.handle() == handle => Some(e),
        _ => None,
    }
}

/// The first entity from slot `i` on whose class has the id `id`.
pub open spec fn first_of_class_id(slots: Seq<Option<EntityView>>, id: i32, i: nat) -> Option<
    EntityView,
>
    decreases slots.len() - i,
{
    if i >= slots.len() {
        None
    } else {
        match slots[i as int] {
            Some(e) if e.class.id == id => Some(e),
            _ => first_of_class_id(slots, id, i + 1),
        }
    }
}

/// The first entity from slot `i` on whose class has the name `name`.
pub open spec fn first_of_class_name(slots: Seq<Option<EntityView>>, name: Seq<char>, i: nat) -> Option<
    EntityView,
>
    decreases slots.len() - i,
{
    if i >= slots.len() {
        None
    } else {
        match slots[i as int] {
            Some(e) if e.class.name@ == name => Some(e),
            _ => first_of_class_name(slots, name, i + 1),
        }
    }
}

/// The entities from slot `i` on, in the order of their slots.
pub open spec fn present_from(slots: Seq<Option<EntityView>>, i: nat) -> Seq<EntityView>
    decreases slots.len() - i,
{
    if i >= slots.len() {
        Seq::empty()
    } else {
        match slots[i as int] {
            Some(e) => seq![e] + present_from(slots, i + 1),
            None => present_from(slots, i + 1),
        }
    }
}

/// One operation of a packet on the table of entities.
pub enum Step {
    /// An entity takes its slot, in place of what lived there.
    Create(EntityView),
    /// A value is written at a field path of the entity at an index.
    Update(int, Seq<u8>, FieldValue),
    /// What the entity at an index stores at a field path is cleared.
    Clear(int, Seq<u8>),
    /// The slot at an index is cleared.
    Delete(int),
    /// The entity at an index leaves the view of the recording: nothing changes.
    Leave(int),
}

/// The slots after one operation. An operation on a slot that does not exist, and an
/// update of an empty slot, change nothing.
pub open spec fn step(slots: Seq<Option<EntityView>>, op: Step) -> Seq<Option<EntityView>> {
    match op {
        Step::Create(e) => if e.index < slots.len() {
            slots.update(e.index as int, Some(e))
        } else {
            slots
        },
        Step::Update(index, path, value) => updated(slots, index, path, value),
        Step::Clear(index, path) => cleared(slots, index, path),
        Step::Delete(index) => if 0 <= index < slots.len() {
            slots.update(index, None)
        } else {
            slots
        },
        Step::Leave(_) => slots,
    }
}

/// The slots after a run of operations, in order.
pub open spec fn run(slots: Seq<Option<EntityView>>, ops: Seq<Step>) -> Seq<Option<EntityView>>
    decreases ops.len(),
{
    if ops.len() == 0 {
        slots
    } else {
        step(run(slots, ops.drop_last()), ops.last())
    }
}

/// The event that an operation gives rise to; none where it changes nothing.
pub open spec fn event_of(slots: Seq<Option<EntityView>>, op: Step) -> Option<EntityEvents> {
    match op {
        Step::Create(e) => if e.index < slots.len() {
            Some(EntityEvents::Created)
        } else {
            None
        },
        Step::Update(index, _, _) | Step::Clear(index, _) => if at_index(slots, index) is Some {
            Some(EntityEvents::Updated)
        } else {
            None
        },
        Step::Delete(index) => if at_index(slots, index) is Some {
            Some(EntityEvents::Deleted)
        } else {
            None
        },
        Step::Leave(_) => None,
    }
}

/// Whether an operation ends the life of the entity at `index`: a deletion there, or the
/// creation of another entity there.
pub open spec fn replaces(op: Step, index: int) -> bool {
    match op {
        Step::Create(e) => e.index == index,
        Step::Delete(i) => i == index,
        _ => false,
    }
}

/// The cells of an entity's row in the table of entities: its index, serial and handle
/// in decimal, and the name of its class.
pub open spec fn entity_row(e: EntityView) -> Seq<Seq<char>> {
    seq![
        decimal(e.index as nat),
        decimal(e.serial as nat),
        decimal(e.handle() as nat),
        e.class.name@,
    ]
}

/// The rows of the table of entities: a row of column titles, then a row for each live
/// entity, in the order of their indices.
pub open spec fn entity_rows(slots: Seq<Option<EntityView>>) -> Seq<Seq<Seq<char>>> {
    seq![seq!["idx"@, "serial"@, "handle"@, "class"@]] + present_from(slots, 0).map_values(
        |e: EntityView| entity_row(e),
    )
}

/// Whether no live entity is of a class whose name holds an escape character.
pub open spec fn names_plain(slots: Seq<Option<EntityView>>) -> bool {
    forall|i: int|
        0 <= i < slots.len() ==> (#[trigger] slots[i] matches Some(e) ==> plain(e.class.name@))
}

proof fn lemma_titles_plain()
    ensures
        plain("idx"@),
        plain("serial"@),
        plain("handle"@),
        plain("class"@),
{
    reveal_strlit("idx");
    reveal_strlit("serial");
    reveal_strlit("handle");
    reveal_strlit("class");
    let a = "idx"@;
    assert(a.len() == 3 && a[0] != ESCAPE && a[1] != ESCAPE && a[2] != ESCAPE);
    let b = "serial"@;
    assert(b.len() == 6 && b[0] != ESCAPE && b[1] != ESCAPE && b[2] != ESCAPE && b[3] != ESCAPE
        && b[4] != ESCAPE && b[5] != ESCAPE);
    let c = "handle"@;
    assert(c.len() == 6 && c[0] != ESCAPE && c[1] != ESCAPE && c[2] != ESCAPE && c[3] != ESCAPE
        && c[4] != ESCAPE && c[5] != ESCAPE);
    let d = "class"@;
    assert(d.len() == 5 && d[0] != ESCAPE && d[1] != ESCAPE && d[2] != ESCAPE && d[3] != ESCAPE
        && d[4] != ESCAPE);
}

proof fn lemma_entity_row_plain(e: EntityView)
    ensures
        entity_row(e).len() == 4,
        plain(entity_row(e)[0]),
        plain(entity_row(e)[1]),
        plain(entity_row(e)[2]),
        entity_row(e)[3] == e.class.name@,
{
    lemma_decimal_is_digits(e.index as nat);
    lemma_decimal_is_digits(e.serial as nat);
    lemma_decimal_is_digits(e.handle() as nat);
}

proof fn lemma_present(slots: Seq<Option<EntityView>>, i: nat)
    ensures
        forall|e: EntityView|
            present_from(slots, i).contains(e) <==> exists|j: int|
                i <= j < slots.len() && #[trigger] slots[j] == Some(e),
    decreases slots.len() - i,
{
    if i < slots.len() {
        lemma_present(slots, i + 1);
        let rest = present_from(slots, i + 1);
        assert forall|e: EntityView|
            present_from(slots, i).contains(e) <==> exists|j: int|
                i <= j < slots.len() && #[trigger] slots[j] == Some(e) by {
            let here = present_from(slots, i);
            match slots[i as int] {
                Some(first) => {
                    assert(here == seq![first] + rest);
                    if here.contains(e) {
                        let k = choose|k: int| 0 <= k < here.len() && here[k] == e;
                        if k == 0 {
                            assert(slots[i as int] == Some(e));
                        } else {
                            assert(rest[k - 1] == e);
                            assert(rest.contains(e));
                        }
                    }
                    if exists|j: int| i <= j < slots.len() && #[trigger] slots[j] == Some(e) {
                        let j = choose|j: int| i <= j < slots.len() && #[trigger] slots[j] == Some(e);
                        if j == i {
                            assert(here[0] == e);
                        } else {
                            assert(rest.contains(e));
                            let k = choose|k: int| 0 <= k < rest.len() && rest[k] == e;
                            assert(here[k + 1] == e);
                        }
                    }
                },
                None => {
                    assert(here == rest);
                    if exists|j: int| i <= j < slots.len() && #[trigger] slots[j] == Some(e) {
                        let j = choose|j: int| i <= j < slots.len() && #[trigger] slots[j] == Some(e);
                        assert(j != i);
                    }
                },
            }
        }
    } else {
        assert forall|e: EntityView| !present_from(slots, i).contains(e) by {}
    }
}

/// The rows of the table of entities hold no escape character exactly when no name of
/// a live entity's class holds one.
pub proof fn lemma_rows_plain(slots: Seq<Option<EntityView>>)
    ensures
        plain_rows(entity_rows(slots)) <==> names_plain(slots),
{
    let rows = entity_rows(slots);
    let live = present_from(slots, 0);
    lemma_titles_plain();
    lemma_present(slots, 0);
    assert(rows.len() == live.len() + 1);
    assert(rows[0] == seq!["idx"@, "serial"@, "handle"@, "class"@]);
    assert forall|r: int| 1 <= r < rows.len() implies rows[r] == entity_row(live[r - 1]) by {}
    if names_plain(slots) {
        assert forall|r: int, c: int| 0 <= r < rows.len() && 0 <= c < rows[r].len() implies plain(
            #[trigger] rows[r][c],
        ) by {
            if r >= 1 {
                let e = live[r - 1];
                lemma_entity_row_plain(e);
                assert(live.contains(e));
                let j = choose|j: int| 0 <= j < slots.len() && #[trigger] slots[j] == Some(e);
                assert(plain(e.class.name@));
            }
        }
    }
    if plain_rows(rows) {
        assert forall|i: int| 0 <= i < slots.len() implies (#[trigger] slots[i] matches Some(e)
            ==> plain(e.class.name@)) by {
            if let Some(e) = slots[i] {
                assert(live.contains(e));
                let k = choose|k: int| 0 <= k < live.len() && live[k] == e;
                lemma_entity_row_plain(e);
                assert(rows[k + 1] == entity_row(e));
                assert(plain(rows[k + 1][3]));
            }
        }
    }
}

/// The slots after the value `value` is written at `path` in the entity at `index`.
pub open spec fn updated(
    slots: Seq<Option<EntityView>>,
    index: int,
    path: Seq<u8>,
    value: FieldValue,
) -> Seq<Option<EntityView>> {
    match at_index(slots, index) {
        Some(e) => slots.update(
            index,
            Some(EntityView { state: tree_put(e.state, path, value), ..e }),
        ),
        None => slots,
    }
}

fn replace_slot(slots: &mut Vec<Option<Entity>>, i: usize, slot: Option<Entity>) -> (previous:
    Option<Entity>)
    requires
        i < old(slots)@.len(),
    ensures
        final(slots)@ == old(slots)@.update(i as int, slot),
        previous == old(slots)@[i as int],
    no_unwind
{
    let mut slot: Option<Entity> = slot;
    std::mem::swap(&mut slots[i], &mut slot);
    slot
}

/// The slots after what the entity at `index` stores at `path` is cleared.
pub open spec fn cleared(slots: Seq<Option<EntityView>>, index: int, path: Seq<u8>) -> Seq<
    Option<EntityView>,
> {
    match at_index(slots, index) {
        Some(e) => slots.update(index, Some(EntityView { state: tree_clear(e.state, path), ..e })),
        None => slots,
    }
}

/// The container of the live entities: 8192 slots, each empty or holding the entity of
/// that index.
pub struct Entities {
    pub(crate) entities_vec: Vec<Option<Entity>>,
}

impl View for Entities {
    type V = Seq<Option<EntityView>>;

    closed spec fn view(&self) -> Seq<Option<EntityView>> {
        self.entities_vec@.map_values(
            |slot: Option<Entity>|
                match slot {
                    Some(e) => Some(e@),
                    None => None,
                },
        )
    }
}

impl Default for Entities {
    /// The container with every slot empty.
    fn default() -> (entities: Entities)
        ensures
            slots_wf(entities@),
            entities@ == Seq::new(MAX_ENTITIES as nat, |i: int| None::<EntityView>),
    {
        let mut slots: Vec<Option<Entity>> = Vec::new();
        let mut i: usize = 0;
        while i < MAX_ENTITIES
            invariant
                i <= MAX_ENTITIES,
                slots@.len() == i,
                forall|j: int| 0 <= j < i ==> slots@[j] is None,
            decreases MAX_ENTITIES - i,
        {
            slots.push(None);
            i += 1;
        }
        let entities = Entities { entities_vec: slots };
        assert(entities@ =~= Seq::new(MAX_ENTITIES as nat, |i: int| None::<EntityView>));
        entities
    }
}

impl Entities {
    #[verifier::type_invariant]
    spec fn inv(self) -> bool {
        &&& self.entities_vec@.len() == MAX_ENTITIES
        &&& forall|i: int|
            0 <= i < self.entities_vec@.len() ==> (#[trigger] self.entities_vec@[i] matches Some(e)
                ==> e.index == i)
    }

    proof fn lemma_view(self)
        requires
            self.inv(),
        ensures
            slots_wf(self@),
            forall|i: int|
                0 <= i < MAX_ENTITIES ==> (#[trigger] self@[i] is Some
                    <==> self.entities_vec@[i] is Some),
            forall|i: int|
                0 <= i < MAX_ENTITIES && self.entities_vec@[i] is Some ==> #[trigger] self@[i]
                    == Some(self.entities_vec@[i]->0@),
    {
    }

    /// Creates the entity of the given serial, class and state at `index`, in place of
    /// what lived there. There is no slot for an index of 8192 or more.
    pub fn create(&mut self, index: u32, serial: u32, class: Rc<Class>, state: FieldState) -> (res:
        Result<EntityEvents, EntityError>)
        ensures
            slots_wf(final(self)@),
            final(self)@ == step(
                old(self)@,
                Step::Create(EntityView { index, serial, class: *class, state: state.tree() }),
            ),
            match event_of(
                old(self)@,
                Step::Create(EntityView { index, serial, class: *class, state: state.tree() }),
            ) {
                Some(event) => res matches Ok(e) && e == event,
                None => res matches Err(EntityError::IndexNotFound(i)) && i == index,
            },
    {
        proof {
            use_type_invariant(&*self);
            self.lemma_view();
        }
        if index as usize >= MAX_ENTITIES {
            return Err(EntityError::IndexNotFound(index as usize));
        }
        let entity: Entity = Entity::new(index, serial, class, state);
        let ghost created = entity@;
        let _ = replace_slot(&mut self.entities_vec, index as usize, Some(entity));
        assert(self@ =~= old(self)@.update(index as int, Some(created)));
        Ok(EntityEvents::Created)
    }

    /// Writes `value` at the field path `fp` of the entity at `index`.
    pub fn update(&mut self, index: u32, fp: &FieldPath, value: FieldValue) -> (res: Result<
        EntityEvents,
        EntityError,
    >)
        ensures
            slots_wf(final(self)@),
            final(self)@ == step(old(self)@, Step::Update(index as int, fp@, value)),
            match event_of(old(self)@, Step::Update(index as int, fp@, value)) {
                Some(event) => res matches Ok(e) && e == event,
                None => res matches Err(EntityError::IndexNotFound(i)) && i == index,
            },
    {
        proof {
            use_type_invariant(&*self);
            self.lemma_view();
        }
        if index as usize >= MAX_ENTITIES {
            return Err(EntityError::IndexNotFound(index as usize));
        }
        let taken: Option<Entity> = replace_slot(&mut self.entities_vec, index as usize, None);
        match taken {
            Some(entity) => {
                let ghost before = entity@;
                proof {
                    use_type_invariant(&entity);
                }
                let Entity { index: at, serial, class, state } = entity;
                let mut state: FieldState = state;
                state.set(fp, value);
                let entity: Entity = Entity { index: at, serial, class, state };
                let _ = replace_slot(&mut self.entities_vec, index as usize, Some(entity));
                assert(self@ =~= old(self)@.update(
                    index as int,
                    Some(EntityView { state: tree_put(before.state, fp@, value), ..before }),
                ));
                Ok(EntityEvents::Updated)
            },
            None => {
                assert(self@ =~= old(self)@);
                Err(EntityError::IndexNotFound(index as usize))
            },
        }
    }

    /// Clears what the entity at `index` stores at the field path `fp`: the value there,
    /// or the container there with all that it stores.
    pub fn clear(&mut self, index: u32, fp: &FieldPath) -> (res: Result<
        EntityEvents,
        EntityError,
    >)
        ensures
            slots_wf(final(self)@),
            final(self)@ == step(old(self)@, Step::Clear(index as int, fp@)),
            match event_of(old(self)@, Step::Clear(index as int, fp@)) {
                Some(event) => res matches Ok(e) && e == event,
                None => res matches Err(EntityError::IndexNotFound(i)) && i == index,
            },
    {
        proof {
            use_type_invariant(&*self);
            self.lemma_view();
        }
        if index as usize >= MAX_ENTITIES {
            return Err(EntityError::IndexNotFound(index as usize));
        }
        let taken: Option<Entity> = replace_slot(&mut self.entities_vec, index as usize, None);
        match taken {
            Some(entity) => {
                let ghost before = entity@;
                proof {
                    use_type_invariant(&entity);
                }
                let Entity { index: at, serial, class, state } = entity;
                let mut state: FieldState = state;
                state.clear(fp);
                let entity: Entity = Entity { index: at, serial, class, state };
                let _ = replace_slot(&mut self.entities_vec, index as usize, Some(entity));
                assert(self@ =~= old(self)@.update(
                    index as int,
                    Some(EntityView { state: tree_clear(before.state, fp@), ..before }),
                ));
                Ok(EntityEvents::Updated)
            },
            None => {
                assert(self@ =~= old(self)@);
                Err(EntityError::IndexNotFound(index as usize))
            },
        }
    }

    /// Clears the slot at `index` and returns the entity that lived there, which is
    /// deleted.
    pub fn delete(&mut self, index: u32) -> (res: Result<Entity, EntityError>)
        ensures
            slots_wf(final(self)@),
            final(self)@ == step(old(self)@, Step::Delete(index as int)),
            res is Ok <==> event_of(old(self)@, Step::Delete(index as int)) == Some(
                EntityEvents::Deleted,
            ),
            match at_index(old(self)@, index as int) {
                Some(deleted) => res matches Ok(e) && e@ == deleted,
                None => res matches Err(EntityError::IndexNotFound(i)) && i == index,
            },
    {
        proof {
            use_type_invariant(&*self);
            self.lemma_view();
        }
        if index as usize >= MAX_ENTITIES {
            return Err(EntityError::IndexNotFound(index as usize));
        }
        let taken: Option<Entity> = replace_slot(&mut self.entities_vec, index as usize, None);
        match taken {
            Some(entity) => {
                assert(self@ =~= old(self)@.update(index as int, None));
                Ok(entity)
            },
            None => {
                assert(self@ =~= old(self)@);
                Err(EntityError::IndexNotFound(index as usize))
            },
        }
    }

    /// The live entities, in the order of their indices.
    pub fn iter(&self) -> (found: Vec<&Entity>)
        ensures
            slots_wf(self@),
            found@.map_values(|e: &Entity| e@) == present_from(self@, 0),
    {
        proof {
            use_type_invariant(self);
            self.lemma_view();
        }
        let mut found: Vec<&Entity> = Vec::new();
        let ghost slots = self@;
        assert(found@.map_values(|e: &Entity| e@) =~= Seq::<EntityView>::empty());
        let mut i: usize = 0;
        while i < self.entities_vec.len()
            invariant
                i <= MAX_ENTITIES,
                self.inv(),
                slots == self@,
                found@.map_values(|e: &Entity| e@) + present_from(slots, i as nat) == present_from(
                    slots,
                    0,
                ),
            decreases MAX_ENTITIES - i,
        {
            proof {
                self.lemma_view();
            }
            match &self.entities_vec[i] {
                Some(e) => {
                    let ghost before = found@;
                    found.push(e);
                    proof {
                        assert(found@.map_values(|e: &Entity| e@) =~= before.map_values(
                            |e: &Entity| e@,
                        ) + seq![e@]);
                        assert(found@.map_values(|e: &Entity| e@) + present_from(
                            slots,
                            (i + 1) as nat,
                        ) =~= before.map_values(|e: &Entity| e@) + present_from(slots, i as nat));
                    }
                },
                None => {},
            }
            i += 1;
        }
        assert(found@.map_values(|e: &Entity| e@) + Seq::<EntityView>::empty() =~= found@.map_values(
            |e: &Entity| e@,
        ));
        found
    }

    /// The rows of the table of entities: a row of column titles, then a row for each
    /// live entity.
    pub fn rows(&self) -> (rows: Vec<Vec<String>>)
        ensures
            slots_wf(self@),
            rows.deep_view() == entity_rows(self@),
    {
        let found: Vec<&Entity> = self.iter();
        let ghost views = found@.map_values(|e: &Entity| e@);
        let mut titles: Vec<String> = Vec::new();
        titles.push("idx".to_owned());
        titles.push("serial".to_owned());
        titles.push("handle".to_owned());
        titles.push("class".to_owned());
        assert(titles.deep_view() =~= seq!["idx"@, "serial"@, "handle"@, "class"@]);
        let mut rows: Vec<Vec<String>> = Vec::new();
        rows.push(titles);
        assert(rows.deep_view() =~= seq![seq!["idx"@, "serial"@, "handle"@, "class"@]]);
        let mut i: usize = 0;
        while i < found.len()
            invariant
                i <= found@.len(),
                views == found@.map_values(|e: &Entity| e@),
                rows.deep_view() == seq![seq!["idx"@, "serial"@, "handle"@, "class"@]]
                    + views.take(i as int).map_values(|e: EntityView| entity_row(e)),
            decreases found@.len() - i,
        {
            let e: &Entity = found[i];
            let mut row: Vec<String> = Vec::new();
            row.push(decimal_string(e.index() as u64));
            row.push(decimal_string(e.serial() as u64));
            row.push(decimal_string(e.handle() as u64));
            row.push(e.class().name().to_owned());
            assert(row.deep_view() =~= entity_row(e@));
            let ghost before = rows.deep_view();
            rows.push(row);
            proof {
                assert(views[i as int] == e@);
                assert(rows.deep_view() =~= before.push(entity_row(e@)));
                assert(views.take(i + 1).map_values(|e: EntityView| entity_row(e))
                    =~= views.take(i as int).map_values(|e: EntityView| entity_row(e)).push(
                    entity_row(e@),
                ));
            }
            i += 1;
        }
        assert(views.take(found@.len() as int) =~= views);
        rows
    }

    /// The table of entities as text, as `prettytable` draws it. There is no table where
    /// the name of a class holds an escape character.
    pub fn as_string(&self) -> (text: Option<String>)
        ensures
            slots_wf(self@),
            text is Some <==> names_plain(self@),
            text matches Some(t) ==> t@ == table_text(entity_rows(self@)),
    {
        proof {
            lemma_rows_plain(self@);
        }
        let rows: Vec<Vec<String>> = self.rows();
        if are_plain(&rows) {
            Some(render_table(&rows))
        } else {
            None
        }
    }

    /// The entity that lives at `index`.
    pub fn get_by_index(&self, index: usize) -> (res: Result<&Entity, EntityError>)
        ensures
            slots_wf(self@),
            match at_index(self@, index as int) {
                Some(e) => res matches Ok(found) && found@ == e && found@.index == index,
                None => res matches Err(EntityError::IndexNotFound(i)) && i == index,
            },
    {
        proof {
            use_type_invariant(self);
            self.lemma_view();
        }
        if index < self.entities_vec.len() {
            match &self.entities_vec[index] {
                Some(e) => Ok(e),
                None => Err(EntityError::IndexNotFound(index)),
            }
        } else {
            Err(EntityError::IndexNotFound(index))
        }
    }

    /// The entity that has the handle `handle`: the one at the index that the handle's
    /// low fourteen bits name, provided its serial is the one in the handle.
    pub fn get_by_handle(&self, handle: usize) -> (res: Result<&Entity, EntityError>)
        ensures
            slots_wf(self@),
            match at_handle(self@, handle) {
                Some(e) => res matches Ok(found) && found@ == e,
                None => res matches Err(EntityError::HandleNotFound(h)) && h == handle,
            },
    {
        match self.get_by_index(handle & 0x3fff) {
            Ok(e) => {
                if e.handle() as usize == handle {
                    Ok(e)
                } else {
                    Err(EntityError::HandleNotFound(handle))
                }
            },
            Err(_) => Err(EntityError::HandleNotFound(handle)),
        }
    }

    /// The first entity, by index, whose class has the id `id`.
    pub fn get_by_class_id(&self, id: i32) -> (res: Result<&Entity, EntityError>)
        ensures
            slots_wf(self@),
            match first_of_class_id(self@, id, 0) {
                Some(e) => res matches Ok(found) && found@ == e,
                None => res matches Err(EntityError::ClassIdNotFound(i)) && i == id,
            },
    {
        proof {
            use_type_invariant(self);
            self.lemma_view();
        }
        let mut i: usize = 0;
        while i < self.entities_vec.len()
            invariant
                i <= MAX_ENTITIES,
                self.inv(),
                first_of_class_id(self@, id, 0) == first_of_class_id(self@, id, i as nat),
            decreases MAX_ENTITIES - i,
        {
            proof {
                self.lemma_view();
            }
            match &self.entities_vec[i] {
                Some(e) => {
                    if e.class().id() == id {
                        return Ok(e);
                    }
                },
                None => {},
            }
            i += 1;
        }
        Err(EntityError::ClassIdNotFound(id))
    }

    /// The first entity, by index, whose class has the name `name`.
    pub fn get_by_class_name(&self, name: &str) -> (res: Result<&Entity, EntityError>)
        ensures
            slots_wf(self@),
            match first_of_class_name(self@, name@, 0) {
                Some(e) => res matches Ok(found) && found@ == e,
                None => res matches Err(EntityError::ClassNameNotFound(n)) && n@ == name@,
            },
    {
        proof {
            use_type_invariant(self);
            self.lemma_view();
        }
        let mut i: usize = 0;
        while i < self.entities_vec.len()
            invariant
                i <= MAX_ENTITIES,
                self.inv(),
                first_of_class_name(self@, name@, 0) == first_of_class_name(
                    self@,
                    name@,
                    i as nat,
                ),
            decreases MAX_ENTITIES - i,
        {
            proof {
                self.lemma_view();
            }
            match &self.entities_vec[i] {
                Some(e) => {
                    if same_text(e.class().name(), name) {
                        return Ok(e);
                    }
                },
                None => {},
            }
            i += 1;
        }
        Err(EntityError::ClassNameNotFound(name.to_owned()))
    }
}

/// The index and the serial can be read back from a handle: the index from its low
/// fourteen bits, the low eighteen bits of the serial from the bits above.
pub proof fn lemma_handle_parts(serial: u32, index: u32)
    requires
        index < 16384,
    ensures
        handle_of(serial, index) & 0x3fff == index,
        handle_of(serial, index) >> 14 == serial & 0x3ffff,
{
    assert((serial << 14 | index) & 0x3fff == index) by (bit_vector)
        requires
            index < 16384,
    ;
    assert((serial << 14 | index) >> 14 == serial & 0x3ffff) by (bit_vector)
        requires
            index < 16384,
    ;
}

/// Every operation keeps each entity in the slot of its index.
pub proof fn lemma_step_keeps_slots(slots: Seq<Option<EntityView>>, op: Step)
    requires
        slots_wf(slots),
    ensures
        slots_wf(step(slots, op)),
{
}

/// After an entity is created, a lookup by its index finds it, and a lookup by a handle
/// finds it exactly when the handle is the entity's own: when the handle names the index
/// and the serial in it is the entity's.
pub proof fn lemma_created_is_found(slots: Seq<Option<EntityView>>, e: EntityView, handle: usize)
    requires
        slots_wf(slots),
        e.index < MAX_ENTITIES,
    ensures
        at_index(step(slots, Step::Create(e)), e.index as int) == Some(e),
        at_handle(step(slots, Step::Create(e)), handle) == Some(e) <==> handle == e.handle(),
        handle == e.handle() <==> handle <= u32::MAX && handle & 0x3fff == e.index && (
        handle as u32) >> 14 == e.serial & 0x3ffff,
{
    lemma_handle_parts(e.serial, e.index);
    let h = e.handle();
    assert((h as usize) & 0x3fff == (h & 0x3fff) as usize) by (bit_vector);
    if handle <= u32::MAX {
        let g = handle as u32;
        let i = e.index;
        let s = e.serial;
        assert(handle & 0x3fff == (g & 0x3fff) as usize) by (bit_vector)
            requires
                g == handle,
        ;
        assert(g & 0x3fff == i && g >> 14 == s & 0x3ffff ==> g == (s << 14 | i)) by (bit_vector)
            requires
                i < 16384,
        ;
    }
}

/// An entity that was created lives on through every run of operations that neither
/// deletes it nor creates another in its slot: a lookup by its index finds an entity of
/// the same index, serial and class, and a lookup by a handle finds that entity exactly
/// when the handle is the one the entity was created with.
pub proof fn lemma_created_lives_on(
    slots: Seq<Option<EntityView>>,
    e: EntityView,
    ops: Seq<Step>,
    handle: usize,
)
    requires
        slots_wf(slots),
        e.index < MAX_ENTITIES,
        forall|k: int| 0 <= k < ops.len() ==> !replaces(#[trigger] ops[k], e.index as int),
    ensures
        slots_wf(run(step(slots, Step::Create(e)), ops)),
        at_index(run(step(slots, Step::Create(e)), ops), e.index as int) matches Some(found)
            && found.index == e.index && found.serial == e.serial && found.class == e.class,
        at_handle(run(step(slots, Step::Create(e)), ops), handle) == at_index(
            run(step(slots, Step::Create(e)), ops),
            e.index as int,
        ) <==> handle == e.handle(),
    decreases ops.len(),
{
    let created = step(slots, Step::Create(e));
    lemma_step_keeps_slots(slots, Step::Create(e));
    if ops.len() == 0 {
        lemma_created_is_found(slots, e, handle);
    } else {
        let earlier = ops.drop_last();
        assert forall|k: int| 0 <= k < earlier.len() implies !replaces(
            #[trigger] earlier[k],
            e.index as int,
        ) by {
            assert(earlier[k] == ops[k]);
        }
        lemma_created_lives_on(slots, e, earlier, handle);
        let before = run(created, earlier);
        lemma_step_keeps_slots(before, ops.last());
        assert(!replaces(ops[ops.len() - 1], e.index as int));
        let after = step(before, ops.last());
        let found = at_index(after, e.index as int)->0;
        assert(found.handle() == e.handle());
        lemma_created_is_found(slots, e, handle);
        lemma_handle_parts(e.serial, e.index);
        let h = e.handle();
        assert((h as usize) & 0x3fff == (h & 0x3fff) as usize) by (bit_vector);
    }
}

} // verus!
