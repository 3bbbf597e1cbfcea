use vstd::prelude::*;

use crate::id::{IdView, ID};
use crate::sender::EventSender;
use crate::service::{views, Service, ServiceView, State};

verus! {

/// What heck's upper camel case conversion makes of a string.
pub uninterp spec fn upper_camel_of(s: Seq<char>) -> Seq<char>;

/// Relies on `heck::ToUpperCamelCase::to_upper_camel_case` for `str`: the result
/// depends on the characters alone.
#[verifier::external_body]
fn to_upper_camel_case(s: &str) -> (r: String)
    ensures
        r@ == upper_camel_of(s@),
{
    heck::ToUpperCamelCase::to_upper_camel_case(s)
}

/// The name an endpoint is shown under: its field name in upper camel case.
pub open spec fn display_name(field_name: Seq<char>) -> Seq<char> {
    upper_camel_of(field_name)
}

/// One typed channel of a declared endpoint: the key of its payload type and its capacity.
#[derive(Clone, Copy, Debug, PartialEq, Eq, Structural)]
pub struct Member {
    pub key: usize,
    pub capacity: usize,
}

pub struct FieldView {
    pub name: Seq<char>,
    pub members: Seq<Member>,
    pub slots: Option<usize>,
}

/// A declared endpoint: one member, or a group of members under one address,
/// either alone or repeated as an array of `slots` slots.
pub struct Field {
    name: String,
    members: Vec<Member>,
    slots: Option<usize>,
}

/// Why a declaration is refused.
#[derive(Clone, Copy, Debug, PartialEq, Eq, Structural)]
pub enum SchemaError {
    /// An array whose element is itself an array.
    NestedArray,
    /// The field at this position declares a channel of capacity zero.
    ZeroCapacity(usize),
    /// The field at this position declares two members of one payload type.
    RepeatedKey(usize),
    /// So many fields that one would take the numeric id of the global sender.
    TooManyFields,
}

impl View for Field {
    type V = FieldView;

    closed spec fn view(&self) -> FieldView {
        FieldView { name: self.name@, members: self.members@, slots: self.slots }
    }
}

impl Field {
    pub fn single(name: &str, key: usize, capacity: usize) -> (r: Field)
        ensures
            r@ == (FieldView { name: name@, members: seq![Member { key, capacity }], slots: None }),
    {
        let mut members: Vec<Member> = Vec::new();
        members.push(Member { key, capacity });
        proof {
            assert(members@ =~= seq![Member { key, capacity }]);
        }
        Field { name: name.to_owned(), members, slots: None }
    }

    pub fn group(name: &str, members: Vec<Member>) -> (r: Field)
        ensures
            r@ == (FieldView { name: name@, members: members@, slots: None }),
    {
        Field { name: name.to_owned(), members, slots: None }
    }

    /// The same endpoint repeated `len` times; an array cannot be repeated again.
    pub fn array(self, len: usize) -> (r: Result<Field, SchemaError>)
        ensures
            self@.slots is Some ==> r == Err::<Field, SchemaError>(SchemaError::NestedArray),
            self@.slots is None ==> r is Ok && r->Ok_0@ == (FieldView { slots: Some(len), ..self@ }),
    {
        match self.slots {
            Some(_) => Err(SchemaError::NestedArray),
            None => Ok(Field { name: self.name, members: self.members, slots: Some(len) }),
        }
    }

    fn has_repeated_key(&self) -> (r: bool)
        ensures
            r == has_repeated_key(self@),
    {
        let n = self.members.len();
        let mut k: usize = 0;
        while k < n
            invariant
                k <= n,
                n == self.members@.len(),
                forall|a: int, b: int| 0 <= a < b < k ==> (#[trigger] self.members@[a]).key != (#[trigger] self.members@[b]).key,
            decreases n - k,
        {
            let mut j: usize = 0;
            while j < k
                invariant
                    j <= k,
                    k < n,
                    n == self.members@.len(),
                    forall|a: int| 0 <= a < j ==> (#[trigger] self.members@[a]).key != self.members@[k as int].key,
                decreases k - j,
            {
                if self.members[j].key == self.members[k].key {
                    assert(self@.members[j as int].key == self@.members[k as int].key);
                    return true;
                }
                j = j + 1;
            }
            k = k + 1;
        }
        false
    }

    fn has_empty_channel(&self) -> (r: bool)
        ensures
            r == has_empty_channel(self@),
    {
        let mut j: usize = 0;
        while j < self.members.len()
            invariant
                j <= self.members@.len(),
                forall|k: int| 0 <= k < j ==> (#[trigger] self.members@[k]).capacity > 0,
            decreases self.members@.len() - j,
        {
            if self.members[j].capacity == 0 {
                assert(self@.members[j as int].capacity == 0);
                return true;
            }
            j = j + 1;
        }
        false
    }
}

/// Whether two members of `f` carry the same payload type.
pub open spec fn has_repeated_key(f: FieldView) -> bool {
    repeats_key(f.members)
}

/// Whether two of `members` carry the same payload type.
pub open spec fn repeats_key(members: Seq<Member>) -> bool {
    exists|j: int, k: int| 0 <= j < k < members.len() && (#[trigger] members[j]).key == (#[trigger] members[k]).key
}

/// A field that can be built: every channel has room, and no payload type is
/// declared twice under one address.
pub open spec fn field_ok(f: FieldView) -> bool {
    !has_empty_channel(f) && !has_repeated_key(f)
}

pub open spec fn has_empty_channel(f: FieldView) -> bool {
    exists|j: int| 0 <= j < f.members.len() && (#[trigger] f.members[j]).capacity == 0
}

/// A declaration that can be built: ids below the global one, and every field buildable.
pub open spec fn fields_ok(fields: Seq<FieldView>) -> bool {
    fields.len() < usize::MAX && forall|i: int| 0 <= i < fields.len() ==> field_ok(#[trigger] fields[i])
}

/// Where an endpoint of an owner is addressed: a declared endpoint by its numeric id,
/// with a slot index for an array, or the sentinel of senders that own no endpoint.
#[derive(Clone, Copy, Debug, PartialEq, Eq, Structural)]
pub enum Target {
    Endpoint(usize, Option<usize>),
    Global,
}

/// The numeric id of the global sender.
pub const GLOBAL_ID: usize = usize::MAX;

impl Target {
    pub open spec fn spec_id(self) -> usize {
        match self {
            Target::Endpoint(id, _) => id,
            Target::Global => GLOBAL_ID,
        }
    }

    pub fn id(&self) -> (r: usize)
        ensures
            r == self.spec_id(),
    {
        match self {
            Target::Endpoint(id, _) => *id,
            Target::Global => GLOBAL_ID,
        }
    }
}

/// The cells that one slot of an endpoint holds for payload type `key`, in member order.
pub open spec fn slot_cells(members: Seq<Member>, key: usize, ident: IdView) -> Seq<ServiceView>
    decreases members.len(),
{
    if members.len() == 0 {
        Seq::empty()
    } else {
        let prev = slot_cells(members.drop_last(), key, ident);
        if members.last().key == key {
            prev.push(ServiceView { id: Some(ident), capacity: members.last().capacity, state: State::Inactive })
        } else {
            prev
        }
    }
}

/// The cells of the first `n` slots of an array endpoint, in slot order.
pub open spec fn array_cells(f: FieldView, fid: usize, key: usize, n: nat) -> Seq<ServiceView>
    decreases n,
{
    if n == 0 {
        Seq::empty()
    } else {
        array_cells(f, fid, key, (n - 1) as nat) + slot_cells(
            f.members,
            key,
            IdView { id: fid, index: Some((n - 1) as usize), name: display_name(f.name) },
        )
    }
}

/// The cells of payload type `key` that the endpoint declared at `fid` holds.
pub open spec fn field_cells(f: FieldView, fid: usize, key: usize) -> Seq<ServiceView> {
    match f.slots {
        None => slot_cells(f.members, key, IdView { id: fid, index: None, name: display_name(f.name) }),
        Some(n) => array_cells(f, fid, key, n as nat),
    }
}

/// Every cell of payload type `key` across a declaration: declaration order, then
/// slot order, then member order; each bound to its identity and inactive.
pub open spec fn schema_cells(fields: Seq<FieldView>, key: usize) -> Seq<ServiceView>
    decreases fields.len(),
{
    if fields.len() == 0 {
        Seq::empty()
    } else {
        schema_cells(fields.drop_last(), key) + field_cells(fields.last(), (fields.len() - 1) as usize, key)
    }
}

/// The target that a numeric id denotes: a declared endpoint, without slot index,
/// or else the global sender.
pub open spec fn spec_target(fields: Seq<FieldView>, id: usize) -> Target {
    if id < fields.len() {
        Target::Endpoint(id, None)
    } else {
        Target::Global
    }
}

/// The target that identity `i` stands for: its endpoint, with the slot index where
/// the endpoint is an array, or the global sender for an id that is not declared.
pub open spec fn spec_target_of(fields: Seq<FieldView>, i: IdView) -> Target {
    if i.id < fields.len() {
        Target::Endpoint(
            i.id,
            if fields[i.id as int].slots is Some {
                i.index
            } else {
                None
            },
        )
    } else {
        Target::Global
    }
}

/// Whether `t` names the global sender or a declared endpoint.
pub open spec fn declared(fields: Seq<FieldView>, t: Target) -> bool {
    match t {
        Target::Endpoint(id, _) => id < fields.len(),
        Target::Global => true,
    }
}

pub open spec fn spec_name(fields: Seq<FieldView>, t: Target) -> Seq<char> {
    match t {
        Target::Endpoint(id, _) => display_name(fields[id as int].name),
        Target::Global => "Global"@,
    }
}

/// The identity of a target: its numeric id, its slot index where the endpoint is an
/// array, and its display name.
pub open spec fn spec_identity(fields: Seq<FieldView>, t: Target) -> IdView {
    match t {
        Target::Endpoint(id, index) => IdView {
            id,
            index: if fields[id as int].slots is Some {
                index
            } else {
                None
            },
            name: spec_name(fields, t),
        },
        Target::Global => IdView { id: GLOBAL_ID, index: None, name: spec_name(fields, t) },
    }
}

/// Whether the cell `s` is the one that identity `t` locates: same numeric id and
/// same slot index.
pub open spec fn locates(s: ServiceView, t: IdView) -> bool {
    match s.id {
        Some(i) => i.id == t.id && i.index == t.index,
        None => false,
    }
}

/// The position of the first cell of `table` that `target` locates.
pub fn locate<T>(table: &Vec<Service<T>>, target: &ID) -> (r: Option<usize>)
    ensures
        match r {
            Some(p) => p < table@.len() && locates(table@[p as int]@, target@) && forall|q: int|
                0 <= q < p ==> !locates(#[trigger] table@[q]@, target@),
            None => forall|q: int| 0 <= q < table@.len() ==> !locates(#[trigger] table@[q]@, target@),
        },
{
    let mut p: usize = 0;
    while p < table.len()
        invariant
            p <= table@.len(),
            forall|q: int| 0 <= q < p ==> !locates(#[trigger] table@[q]@, target@),
        decreases table@.len() - p,
    {
        let found = match table[p].id() {
            Some(i) => i.id() == target.id() && match (i.index(), target.index()) {
                (Some(a), Some(b)) => a == b,
                (None, None) => true,
                _ => false,
            },
            None => false,
        };
        if found {
            return Some(p);
        }
        p = p + 1;
    }
    None
}

/// Appends to `out` the cells of one slot whose identity is `ident`.
fn push_slot<T>(out: &mut Vec<Service<T>>, members: &Vec<Member>, key: usize, ident: &ID)
    requires
        forall|j: int| 0 <= j < members@.len() ==> (#[trigger] members@[j]).capacity > 0,
    ensures
        views(final(out)@) == views(old(out)@) + slot_cells(members@, key, ident@),
{
    let mut j: usize = 0;
    while j < members.len()
        invariant
            j <= members@.len(),
            forall|k: int| 0 <= k < members@.len() ==> (#[trigger] members@[k]).capacity > 0,
            views(out@) == views(old(out)@) + slot_cells(members@.subrange(0, j as int), key, ident@),
        decreases members@.len() - j,
    {
        let m = members[j];
        let ghost before = views(out@);
        proof {
            assert(members@.subrange(0, j + 1).drop_last() =~= members@.subrange(0, j as int));
            assert(members@.subrange(0, j + 1).last() == m);
        }
        if m.key == key {
            let mut cell = Service::new(m.capacity);
            cell.init(ident.clone());
            let ghost added = cell@;
            out.push(cell);
            proof {
                assert(views(out@) =~= before.push(added));
            }
        }
        j = j + 1;
    }
    proof {
        assert(members@.subrange(0, members@.len() as int) =~= members@);
    }
}

/// A checked declaration of an owner's endpoints: the routing tables are computed from it.
pub struct Schema {
    fields: Vec<Field>,
}

pub open spec fn field_views(fields: Seq<Field>) -> Seq<FieldView> {
    fields.map_values(|f: Field| f@)
}

impl View for Schema {
    type V = Seq<FieldView>;

    closed spec fn view(&self) -> Seq<FieldView> {
        field_views(self.fields@)
    }
}

impl Schema {
    pub open spec fn wf(&self) -> bool {
        fields_ok(self@)
    }

    /// Checks a declaration: it is refused when it has too many fields, or else at
    /// the first field that declares a channel of capacity zero or two members of
    /// one payload type (capacity is looked at first).
    pub fn new(fields: Vec<Field>) -> (r: Result<Schema, SchemaError>)
        ensures
            r is Ok <==> fields_ok(field_views(fields@)),
            r is Ok ==> r->Ok_0@ == field_views(fields@) && r->Ok_0.wf(),
            fields@.len() >= usize::MAX ==> r == Err::<Schema, SchemaError>(SchemaError::TooManyFields),
            forall|i: usize|
                r == Err::<Schema, SchemaError>(SchemaError::ZeroCapacity(i)) <==> (fields@.len() < usize::MAX
                    && i < fields@.len() && has_empty_channel(#[trigger] field_views(fields@)[i as int])
                    && forall|k: int| 0 <= k < i ==> field_ok(field_views(fields@)[k])),
            forall|i: usize|
                r == Err::<Schema, SchemaError>(SchemaError::RepeatedKey(i)) <==> (fields@.len() < usize::MAX
                    && i < fields@.len() && !has_empty_channel(#[trigger] field_views(fields@)[i as int])
                    && has_repeated_key(field_views(fields@)[i as int])
                    && forall|k: int| 0 <= k < i ==> field_ok(field_views(fields@)[k])),
    {
        let ghost fv = field_views(fields@);
        if fields.len() == usize::MAX {
            return Err(SchemaError::TooManyFields);
        }
        let mut i: usize = 0;
        while i < fields.len()
            invariant
                i <= fields@.len(),
                fields@.len() < usize::MAX,
                fv == field_views(fields@),
                fv.len() == fields@.len(),
                forall|k: int| 0 <= k < i ==> field_ok(#[trigger] fv[k]),
            decreases fields@.len() - i,
        {
            proof {
                assert(fv[i as int] == fields@[i as int]@);
            }
            if fields[i].has_empty_channel() {
                return Err(SchemaError::ZeroCapacity(i));
            }
            if fields[i].has_repeated_key() {
                return Err(SchemaError::RepeatedKey(i));
            }
            i = i + 1;
        }
        Ok(Schema { fields })
    }

    pub fn len(&self) -> (r: usize)
        ensures
            r == self@.len(),
    {
        self.fields.len()
    }

    /// The target that numeric id `id` denotes.
    pub fn target(&self, id: usize) -> (r: Target)
        ensures
            r == spec_target(self@, id),
    {
        if id < self.fields.len() {
            Target::Endpoint(id, None)
        } else {
            Target::Global
        }
    }

    /// The name that target `t` is shown under.
    pub fn name(&self, t: Target) -> (r: String)
        requires
            declared(self@, t),
        ensures
            r@ == spec_name(self@, t),
    {
        match t {
            Target::Endpoint(id, _) => {
                proof {
                    assert(self@[id as int] == self.fields@[id as int]@);
                }
                self.field_name(id)
            },
            Target::Global => "Global".to_owned(),
        }
    }

    fn field_name(&self, i: usize) -> (r: String)
        requires
            i < self@.len(),
        ensures
            r@ == display_name(self@[i as int].name),
    {
        proof {
            assert(self@[i as int] == self.fields@[i as int]@);
        }
        to_upper_camel_case(self.fields[i].name.as_str())
    }

    /// The table of payload type `key`: one bound, inactive endpoint for every cell
    /// of that type across the declaration, in declaration, slot and member order.
    pub fn table<T>(&self, key: usize) -> (r: Vec<Service<T>>)
        requires
            self.wf(),
        ensures
            views(r@) == schema_cells(self@, key),
    {
        let mut out: Vec<Service<T>> = Vec::new();
        let mut i: usize = 0;
        proof {
            assert(views(out@) =~= Seq::<ServiceView>::empty());
            assert(self@.subrange(0, 0) =~= Seq::<FieldView>::empty());
        }
        while i < self.fields.len()
            invariant
                i <= self@.len(),
                self.wf(),
                self@.len() == self.fields@.len(),
                views(out@) == schema_cells(self@.subrange(0, i as int), key),
            decreases self@.len() - i,
        {
            let ghost done = views(out@);
            let ghost f = self@[i as int];
            proof {
                assert(f == self.fields@[i as int]@);
                assert(self@.subrange(0, i + 1).drop_last() =~= self@.subrange(0, i as int));
                assert(self@.subrange(0, i + 1).last() == f);
                assert(!has_empty_channel(f));
            }
            let field = &self.fields[i];
            let name = self.field_name(i);
            match field.slots {
                None => {
                    let ident = ID::new(i).set_name(name.as_str());
                    push_slot(&mut out, &field.members, key, &ident);
                },
                Some(len) => {
                    let mut s: usize = 0;
                    while s < len
                        invariant
                            s <= len,
                            f.slots == Some(len),
                            f == field@,
                            name@ == display_name(f.name),
                            forall|k: int| 0 <= k < f.members.len() ==> (#[trigger] f.members[k]).capacity > 0,
                            views(out@) == done + array_cells(f, i, key, s as nat),
                        decreases len - s,
                    {
                        let ident = ID::new(i).set_name(name.as_str()).set_index(s);
                        push_slot(&mut out, &field.members, key, &ident);
                        proof {
                            assert(views(out@) =~= done + array_cells(f, i, key, (s + 1) as nat));
                        }
                        s = s + 1;
                    }
                },
            }
            i = i + 1;
        }
        proof {
            assert(self@.subrange(0, self@.len() as int) =~= self@);
        }
        out
    }

    /// The target that identity `id` stands for.
    pub fn target_of(&self, id: &ID) -> (r: Target)
        ensures
            r == spec_target_of(self@, id@),
    {
        let n = id.id();
        if n < self.fields.len() {
            proof {
                assert(self@[n as int] == self.fields@[n as int]@);
            }
            match self.fields[n].slots {
                Some(_) => Target::Endpoint(n, id.index()),
                None => Target::Endpoint(n, None),
            }
        } else {
            Target::Global
        }
    }

    /// A sender that publishes on behalf of target `t`.
    pub fn sender(&self, t: Target) -> (r: EventSender)
        requires
            declared(self@, t),
        ensures
            r@ == spec_identity(self@, t),
    {
        EventSender::new(self.identity(t))
    }

    /// The identity that target `t` stands for.
    pub fn identity(&self, t: Target) -> (r: ID)
        requires
            declared(self@, t),
        ensures
            r@ == spec_identity(self@, t),
    {
        let name = self.name(t);
        match t {
            Target::Endpoint(id, index) => {
                proof {
                    assert(self@[id as int] == self.fields@[id as int]@);
                }
                let base = ID::new(id).set_name(name.as_str());
                match (self.fields[id].slots, index) {
                    (Some(_), Some(i)) => base.set_index(i),
                    _ => base,
                }
            },
            Target::Global => ID::new(GLOBAL_ID).set_name(name.as_str()),
        }
    }
}

/// The cells of an array endpoint of one member per slot: slot `s` is bound to the
/// endpoint's numeric id with index `s`, for every slot.
pub proof fn lemma_array_slots(f: FieldView, fid: usize, key: usize, n: nat)
    requires
        f.members.len() == 1,
        f.members[0].key == key,
        n <= usize::MAX,
    ensures
        array_cells(f, fid, key, n).len() == n,
        forall|s: int|
            0 <= s < n ==> (#[trigger] array_cells(f, fid, key, n)[s]).id == Some(
                IdView { id: fid, index: Some(s as usize), name: display_name(f.name) },
            ),
    decreases n,
{
    if n > 0 {
        lemma_array_slots(f, fid, key, (n - 1) as nat);
        let ident = IdView { id: fid, index: Some((n - 1) as usize), name: display_name(f.name) };
        assert(slot_cells(f.members.drop_last(), key, ident) =~= Seq::<ServiceView>::empty());
        assert(f.members.last() == f.members[0]);
        let prev = array_cells(f, fid, key, (n - 1) as nat);
        let one = slot_cells(f.members, key, ident);
        assert(one.len() == 1 && one[0].id == Some(ident));
        assert forall|s: int| 0 <= s < n implies (#[trigger] array_cells(f, fid, key, n)[s]).id == Some(
            IdView { id: fid, index: Some(s as usize), name: display_name(f.name) },
        ) by {
            if s < n - 1 {
                assert(array_cells(f, fid, key, n)[s] == prev[s]);
            } else {
                assert(array_cells(f, fid, key, n)[s] == one[0]);
            }
        }
    }
}

/// A declared numeric id names its endpoint without slot index, and that target
/// gives the id back; any other id names the global sender.
pub proof fn lemma_target_round_trip(fields: Seq<FieldView>, id: usize)
    requires
        fields_ok(fields),
    ensures
        id < fields.len() ==> spec_target(fields, id) == Target::Endpoint(id, None),
        id < fields.len() ==> spec_identity(fields, spec_target(fields, id)).index is None,
        id >= fields.len() ==> spec_target(fields, id) == Target::Global,
        spec_target(fields, id).spec_id() == if id < fields.len() {
            id
        } else {
            GLOBAL_ID
        },
{
}

/// A target's identity leads back to the target, for the global sender and for
/// every declared endpoint whose slot index is given exactly when it is an array.
pub proof fn lemma_identity_round_trip(fields: Seq<FieldView>, t: Target)
    requires
        fields_ok(fields),
        declared(fields, t),
        t matches Target::Endpoint(id, index) ==> (index is Some ==> fields[id as int].slots is Some),
    ensures
        spec_target_of(fields, spec_identity(fields, t)) == t,
{
}

/// Whether two cells are bound to the same numeric id and slot index.
pub open spec fn same_address(a: ServiceView, b: ServiceView) -> bool {
    a.id is Some && b.id is Some && a.id->Some_0.id == b.id->Some_0.id && a.id->Some_0.index == b.id->Some_0.index
}

proof fn lemma_slot_cells(members: Seq<Member>, key: usize, ident: IdView)
    ensures
        forall|p: int| 0 <= p < slot_cells(members, key, ident).len() ==> (#[trigger] slot_cells(members, key, ident)[p]).id == Some(ident),
        slot_cells(members, key, ident).len() > 0 ==> exists|j: int| 0 <= j < members.len() && (#[trigger] members[j]).key == key,
        !repeats_key(members) ==> slot_cells(members, key, ident).len() <= 1,
    decreases members.len(),
{
    if members.len() > 0 {
        let rest = members.drop_last();
        lemma_slot_cells(rest, key, ident);
        if slot_cells(rest, key, ident).len() > 0 {
            let j = choose|j: int| 0 <= j < rest.len() && (#[trigger] rest[j]).key == key;
            assert(members[j].key == key);
            if !repeats_key(members) && members.last().key == key {
                assert(members[j].key == members[members.len() - 1].key);
            }
        }
        if !repeats_key(members) {
            assert forall|a: int, b: int| 0 <= a < b < rest.len() implies (#[trigger] rest[a]).key != (#[trigger] rest[b]).key by {
                assert(members[a] == rest[a] && members[b] == rest[b]);
            }
        }
        if members.last().key == key {
            assert(members[members.len() - 1].key == key);
        }
    }
}

proof fn lemma_array_cells(f: FieldView, fid: usize, key: usize, n: nat)
    requires
        !has_repeated_key(f),
        n <= usize::MAX + 1,
    ensures
        forall|p: int| 0 <= p < array_cells(f, fid, key, n).len() ==> {
            let c = #[trigger] array_cells(f, fid, key, n)[p];
            &&& c.id is Some
            &&& c.id->Some_0.id == fid
            &&& c.id->Some_0.index is Some
            &&& c.id->Some_0.index->Some_0 < n
        },
        forall|p: int, q: int| 0 <= p < q < array_cells(f, fid, key, n).len() ==>
            (#[trigger] array_cells(f, fid, key, n)[p]).id->Some_0.index->Some_0
                < (#[trigger] array_cells(f, fid, key, n)[q]).id->Some_0.index->Some_0,
    decreases n,
{
    if n > 0 {
        let prev = array_cells(f, fid, key, (n - 1) as nat);
        let ident = IdView { id: fid, index: Some((n - 1) as usize), name: display_name(f.name) };
        let one = slot_cells(f.members, key, ident);
        lemma_array_cells(f, fid, key, (n - 1) as nat);
        lemma_slot_cells(f.members, key, ident);
        let all = array_cells(f, fid, key, n);
        assert(all == prev + one);
        assert forall|p: int| 0 <= p < all.len() implies {
            let c = #[trigger] all[p];
            &&& c.id is Some
            &&& c.id->Some_0.id == fid
            &&& c.id->Some_0.index is Some
            &&& c.id->Some_0.index->Some_0 < n
        } by {
            if p >= prev.len() {
                assert(all[p] == one[p - prev.len()]);
            } else {
                assert(all[p] == prev[p]);
            }
        }
        assert forall|p: int, q: int| 0 <= p < q < all.len() implies
            (#[trigger] all[p]).id->Some_0.index->Some_0 < (#[trigger] all[q]).id->Some_0.index->Some_0 by {
            if q >= prev.len() {
                assert(one.len() <= 1);
                assert(p < prev.len());
                assert(all[p] == prev[p]);
                assert(all[q] == one[q - prev.len()]);
            } else {
                assert(all[p] == prev[p]);
                assert(all[q] == prev[q]);
            }
        }
    }
}

proof fn lemma_field_cells(f: FieldView, fid: usize, key: usize)
    requires
        field_ok(f),
    ensures
        forall|p: int| 0 <= p < field_cells(f, fid, key).len() ==> {
            let c = #[trigger] field_cells(f, fid, key)[p];
            &&& c.id is Some
            &&& c.id->Some_0.id == fid
        },
        forall|p: int, q: int| 0 <= p < q < field_cells(f, fid, key).len() ==> !same_address(
            #[trigger] field_cells(f, fid, key)[p],
            #[trigger] field_cells(f, fid, key)[q],
        ),
{
    match f.slots {
        None => {
            let ident = IdView { id: fid, index: None, name: display_name(f.name) };
            lemma_slot_cells(f.members, key, ident);
            },
        Some(n) => {
            lemma_array_cells(f, fid, key, n as nat);
        },
    }
}

/// In a buildable declaration, no two cells of one payload type share a numeric id
/// and slot index: each cell of a table is the one its own identity locates.
pub proof fn lemma_cells_distinct(fields: Seq<FieldView>, key: usize)
    requires
        fields_ok(fields),
    ensures
        forall|p: int| 0 <= p < schema_cells(fields, key).len() ==> {
            let c = #[trigger] schema_cells(fields, key)[p];
            &&& c.id is Some
            &&& c.id->Some_0.id < fields.len()
        },
        forall|p: int, q: int| 0 <= p < q < schema_cells(fields, key).len() ==> !same_address(
            #[trigger] schema_cells(fields, key)[p],
            #[trigger] schema_cells(fields, key)[q],
        ),
    decreases fields.len(),
{
    if fields.len() > 0 {
        let rest = fields.drop_last();
        assert forall|i: int| 0 <= i < rest.len() implies field_ok(#[trigger] rest[i]) by {
            assert(rest[i] == fields[i]);
        }
        lemma_cells_distinct(rest, key);
        let fid = (fields.len() - 1) as usize;
        assert(field_ok(fields[fields.len() - 1]));
        lemma_field_cells(fields.last(), fid, key);
        let prev = schema_cells(rest, key);
        let last = field_cells(fields.last(), fid, key);
        let all = schema_cells(fields, key);
        assert(all == prev + last);
        assert forall|p: int| 0 <= p < all.len() implies {
            let c = #[trigger] all[p];
            &&& c.id is Some
            &&& c.id->Some_0.id < fields.len()
        } by {
            if p >= prev.len() {
                assert(all[p] == last[p - prev.len()]);
            } else {
                assert(all[p] == prev[p]);
            }
        }
        assert forall|p: int, q: int| 0 <= p < q < all.len() implies !same_address(#[trigger] all[p], #[trigger] all[q]) by {
            if q >= prev.len() {
                assert(all[q] == last[q - prev.len()]);
                if p >= prev.len() {
                    assert(all[p] == last[p - prev.len()]);
                } else {
                    assert(all[p] == prev[p]);
                }
            } else {
                assert(all[p] == prev[p]);
                assert(all[q] == prev[q]);
            }
        }
    }
}

} // verus!
