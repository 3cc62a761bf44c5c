//! Script variables and the evaluation frame.
use vstd::prelude::*;

verus! {

/// A value held by a script variable.
#[derive(Debug, Clone, Copy, PartialEq, Eq, Structural)]
pub enum Value {
    /// A handle to something the host keeps (a pin, a buffer).
    Handle(u64),
    Int(i64),
    Bool(bool),
}

/// The kind of a value, as a host asks for it.
#[derive(Debug, Clone, Copy, PartialEq, Eq, Structural)]
pub enum ValueKind {
    Handle,
    Int,
    Bool,
}

pub open spec fn kind_of(v: Value) -> ValueKind {
    match v {
        Value::Handle(_) => ValueKind::Handle,
        Value::Int(_) => ValueKind::Int,
        Value::Bool(_) => ValueKind::Bool,
    }
}

/// Why a variable could not be read.
#[derive(Debug, Clone, Copy, PartialEq, Eq, Structural)]
pub enum StackError {
    NotFound,
    TypeMismatch,
}

/// The variable bindings of one frame, keyed by name.
#[verifier::external_body]
pub struct Variables {
    map: hashbrown::HashMap<String, Value>,
}

/// The bindings that a `Variables` holds.
pub uninterp spec fn bindings_of(v: Variables) -> Map<Seq<char>, Value>;

impl Variables {
    /// Relies on hashbrown::HashMap::new: a map with no entries.
    #[verifier::external_body]
    fn new() -> (r: Variables)
        ensures
            bindings_of(r) =~= Map::empty(),
    {
        Variables { map: hashbrown::HashMap::new() }
    }

    /// Relies on hashbrown::HashMap::insert: the key maps to the new value
    /// afterwards, and the other entries stay.
    #[verifier::external_body]
    fn insert(&mut self, name: &str, value: Value)
        ensures
            bindings_of(*final(self)) == bindings_of(*old(self)).insert(name@, value),
    {
        self.map.insert(name.to_string(), value);
    }

    /// Relies on hashbrown::HashMap::get: the value of the key, if present.
    #[verifier::external_body]
    fn lookup(&self, name: &str) -> (r: Option<Value>)
        ensures
            bindings_of(*self).contains_key(name@) ==> r == Some(bindings_of(*self)[name@]),
            !bindings_of(*self).contains_key(name@) ==> r is None,
    {
        self.map.get(name).copied()
    }

    /// Relies on hashbrown::HashMap::remove: the key's entry is taken out and
    /// its value returned, if present.
    #[verifier::external_body]
    fn remove(&mut self, name: &str) -> (r: Option<Value>)
        ensures
            bindings_of(*final(self)) == bindings_of(*old(self)).remove(name@),
            bindings_of(*old(self)).contains_key(name@) ==> r == Some(bindings_of(*old(self))[name@]),
            !bindings_of(*old(self)).contains_key(name@) ==> r is None,
    {
        self.map.remove(name)
    }
}

/// One evaluation frame: a program counter into the steps and the
/// variables of the script.
pub struct Stack {
    pub(crate) ast_index: usize,
    variables: Variables,
}

impl Stack {
    pub closed spec fn pc(&self) -> nat {
        self.ast_index as nat
    }

    pub closed spec fn vars(&self) -> Map<Seq<char>, Value> {
        bindings_of(self.variables)
    }

    /// A frame at the first step, with no variables.
    pub fn new() -> (r: Stack)
        ensures
            r.pc() == 0,
            r.vars() == Map::<Seq<char>, Value>::empty(),
    {
        Stack { ast_index: 0, variables: Variables::new() }
    }

    /// The index of the step this frame is at.
    pub fn ast_index(&self) -> (r: usize)
        ensures
            r == self.pc(),
    {
        self.ast_index
    }

    pub(crate) fn set_ast_index(&mut self, i: usize)
        ensures
            final(self).pc() == i,
            final(self).vars() == old(self).vars(),
    {
        self.ast_index = i;
    }

    /// Binds `name` to `value`, replacing any earlier binding.
    pub fn set(&mut self, name: &str, value: Value)
        ensures
            final(self).vars() == old(self).vars().insert(name@, value),
            final(self).pc() == old(self).pc(),
    {
        self.variables.insert(name, value);
    }

    /// The value of `name`, which must be of kind `kind`.
    pub fn get(&self, name: &str, kind: ValueKind) -> (r: Result<Value, StackError>)
        ensures
            !self.vars().contains_key(name@) ==> r == Err::<Value, StackError>(StackError::NotFound),
            self.vars().contains_key(name@) && kind_of(self.vars()[name@]) != kind
                ==> r == Err::<Value, StackError>(StackError::TypeMismatch),
            self.vars().contains_key(name@) && kind_of(self.vars()[name@]) == kind
                ==> r == Ok::<Value, StackError>(self.vars()[name@]),
    {
        match self.variables.lookup(name) {
            None => Err(StackError::NotFound),
            Some(v) => {
                if value_kind(v) == kind {
                    Ok(v)
                } else {
                    Err(StackError::TypeMismatch)
                }
            },
        }
    }

    /// Removes `name` and returns its value, which must be of kind `kind`.
    /// On an error the frame is left as it was.
    pub fn take(&mut self, name: &str, kind: ValueKind) -> (r: Result<Value, StackError>)
        ensures
            final(self).pc() == old(self).pc(),
            !old(self).vars().contains_key(name@) ==> r == Err::<Value, StackError>(StackError::NotFound)
                && final(self).vars() == old(self).vars(),
            old(self).vars().contains_key(name@) && kind_of(old(self).vars()[name@]) != kind
                ==> r == Err::<Value, StackError>(StackError::TypeMismatch)
                && final(self).vars() == old(self).vars(),
            old(self).vars().contains_key(name@) && kind_of(old(self).vars()[name@]) == kind
                ==> r == Ok::<Value, StackError>(old(self).vars()[name@])
                && final(self).vars() == old(self).vars().remove(name@),
    {
        match self.get(name, kind) {
            Ok(_) => match self.variables.remove(name) {
                Some(v) => Ok(v),
                None => Err(StackError::NotFound),
            },
            Err(e) => Err(e),
        }
    }
}

pub fn value_kind(v: Value) -> (k: ValueKind)
    ensures
        k == kind_of(v),
{
    match v {
        Value::Handle(_) => ValueKind::Handle,
        Value::Int(_) => ValueKind::Int,
        Value::Bool(_) => ValueKind::Bool,
    }
}

/// A named value, ready to be bound in a frame.
pub struct StackVariable {
    pub name: String,
    pub value: Value,
}

impl StackVariable {
    pub fn create(scope: &mut Stack, name: &str, value: Value) -> (r: StackVariable)
        ensures
            r.name@ == name@,
            r.value == value,
            *final(scope) == *old(scope),
    {
        StackVariable { name: name.to_owned(), value }
    }
}

} // verus!
