//! What component a system accesses and in what manner, and the names of systems.
use std::any::TypeId;
use vstd::prelude::*;

verus! {

/// What component is accessed and in what manner (read/write).
#[derive(Debug, PartialEq, Eq, Hash)]
pub enum ComponentAccessDescriptor {
    /// Reads from component of provided type.
    Read(TypeId, String),
    /// Reads and writes from component of provided type.
    Write(TypeId, String),
}

impl ComponentAccessDescriptor {
    /// The component type accessed.
    pub open spec fn type_of(&self) -> TypeId {
        match self {
            ComponentAccessDescriptor::Read(t, _) => *t,
            ComponentAccessDescriptor::Write(t, _) => *t,
        }
    }

    /// The name of the component type accessed.
    pub open spec fn name_of(&self) -> Seq<char> {
        match self {
            ComponentAccessDescriptor::Read(_, n) => n@,
            ComponentAccessDescriptor::Write(_, n) => n@,
        }
    }

    /// Creates a [`ComponentAccessDescriptor`] that represents a read of the component type
    /// `component_type`, named `component_name`.
    pub fn read(component_type: TypeId, component_name: &str) -> (r: Self)
        ensures
            r is Read,
            r.type_of() == component_type,
            r.name_of() == component_name@,
    {
        ComponentAccessDescriptor::Read(component_type, component_name.to_owned())
    }

    /// Creates a [`ComponentAccessDescriptor`] that represents a read or write of the
    /// component type `component_type`, named `component_name`.
    pub fn write(component_type: TypeId, component_name: &str) -> (r: Self)
        ensures
            r is Write,
            r.type_of() == component_type,
            r.name_of() == component_name@,
    {
        ComponentAccessDescriptor::Write(component_type, component_name.to_owned())
    }

    /// The name of the type of component accessed.
    pub fn name(&self) -> (r: &str)
        ensures
            r@ == self.name_of(),
    {
        match self {
            ComponentAccessDescriptor::Read(_, name) => name.as_str(),
            ComponentAccessDescriptor::Write(_, name) => name.as_str(),
        }
    }

    /// Gets the inner component type.
    pub fn component_type(&self) -> (r: TypeId)
        ensures
            r == self.type_of(),
    {
        match self {
            ComponentAccessDescriptor::Read(component_type, _) => *component_type,
            ComponentAccessDescriptor::Write(component_type, _) => *component_type,
        }
    }

    /// Whether the access is mutable (read/write).
    pub fn is_write(&self) -> (r: bool)
        ensures
            r == self is Write,
    {
        match self {
            ComponentAccessDescriptor::Read(_, _) => false,
            ComponentAccessDescriptor::Write(_, _) => true,
        }
    }

    /// Whether the access is immutable (read).
    pub fn is_read(&self) -> (r: bool)
        ensures
            r == self is Read,
    {
        !self.is_write()
    }

    /// A copy of the descriptor.
    pub fn duplicate(&self) -> (r: Self)
        ensures
            r == *self,
    {
        match self {
            ComponentAccessDescriptor::Read(t, n) => ComponentAccessDescriptor::Read(*t, n.clone()),
            ComponentAccessDescriptor::Write(t, n) => ComponentAccessDescriptor::Write(
                *t,
                n.clone(),
            ),
        }
    }
}

/// A `::` starts at position `j` of `s`.
pub open spec fn is_path_separator(s: Seq<char>, j: int) -> bool {
    0 <= j && j + 1 < s.len() && s[j] == ':' && s[j + 1] == ':'
}

/// The last path segment of a type's name: what follows the last `::`, or the whole name
/// when it has none.
pub open spec fn last_path_segment(s: Seq<char>) -> Seq<char> {
    if exists|j: int| is_path_separator(s, j) {
        s.skip(
            (choose|j: int| is_path_separator(s, j) && forall|k: int| j < k ==> !is_path_separator(s, k)) + 2,
        )
    } else {
        s
    }
}

/// Where the last path segment of `s` starts: after the last `::`, or at 0 when there is none.
proof fn lemma_last_path_segment(s: Seq<char>, start: int)
    requires
        start == 0 ==> forall|k: int| !is_path_separator(s, k),
        start != 0 ==> 2 <= start <= s.len() && is_path_separator(s, start - 2) && forall|k: int|
            start - 2 < k ==> !is_path_separator(s, k),
    ensures
        last_path_segment(s) == s.skip(start),
{
    if start == 0 {
        assert(!exists|k: int| is_path_separator(s, k));
        assert(s.skip(0) == s);
    } else {
        let sep = start - 2;
        assert(is_path_separator(s, sep));
        let c = choose|c: int| is_path_separator(s, c) && forall|k: int| c < k ==> !is_path_separator(s, k);
        assert(c == sep) by {
            if c < sep {
                assert(!is_path_separator(s, sep));
            }
        }
    }
}

/// Appends `c` to `s`. Calls `String::push`, which the documentation says appends the
/// character to the end of the string.
#[verifier::external_body]
fn push_char(s: &mut String, c: char)
    ensures
        final(s)@ == old(s)@.push(c),
{
    s.push(c);
}

/// The name of a function from the full name of its type: the last segment of the path.
pub fn get_function_name(full_name: &str) -> (r: String)
    ensures
        r@ == last_path_segment(full_name@),
{
    broadcast use vstd::string::axiom_spec_iter;

    let mut chars: Vec<char> = Vec::new();
    for c in it: full_name.chars()
        invariant
            chars@ == it.seq().take(it.index()),
            it.seq() == full_name@,
    {
        chars.push(c);
    }
    assert(chars@ == full_name@);
    let ghost s = full_name@;
    let mut start: usize = 0;
    let mut j: usize = chars.len();
    while j >= 2
        invariant_except_break
            start == 0,
        invariant
            chars@ == s,
            j <= chars.len(),
            forall|k: int| j - 1 <= k ==> !is_path_separator(s, k),
        ensures
            start == 0 ==> forall|k: int| !is_path_separator(s, k),
            start != 0 ==> 2 <= start <= s.len() && is_path_separator(s, start - 2) && forall|k: int|
                start - 2 < k ==> !is_path_separator(s, k),
        decreases j,
    {
        if chars[j - 2] == ':' && chars[j - 1] == ':' {
            start = j;
            break;
        }
        j = j - 1;
    }
    proof {
        lemma_last_path_segment(s, start as int);
    }
    let mut name = String::new();
    let mut i: usize = start;
    while i < chars.len()
        invariant
            chars@ == s,
            start <= i <= chars.len(),
            name@ == s.subrange(start as int, i as int),
        decreases chars.len() - i,
    {
        push_char(&mut name, chars[i]);
        assert(s.subrange(start as int, i + 1) == s.subrange(start as int, i as int).push(s[i as int]));
        i = i + 1;
    }
    assert(s.subrange(start as int, s.len() as int) == s.skip(start as int));
    name
}

} // verus!
