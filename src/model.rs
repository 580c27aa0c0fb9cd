//! The event model: positions, descriptors, versions, tags and events.

use std::ops::Range;
use vstd::prelude::*;

verus! {

/// The position of an event in the log.
#[derive(Clone, Copy, Debug, PartialEq, Eq, Structural, PartialOrd, Ord, Hash)]
pub struct Position(u64);

impl Position {
    pub closed spec fn spec_value(self) -> u64 {
        self.0
    }

    pub fn new(value: u64) -> (r: Position)
        ensures
            r.spec_value() == value,
    {
        Position(value)
    }

    pub(crate) fn increment(&mut self)
        requires
            old(self).spec_value() < u64::MAX,
        ensures
            final(self).spec_value() == old(self).spec_value() + 1,
    {
        self.0 = self.0 + 1;
    }

    #[verifier::when_used_as_spec(spec_value)]
    pub fn value(self) -> (r: u64)
        ensures
            r == self.spec_value(),
    {
        self.0
    }
}

/// The schema revision of an event kind.
#[derive(Clone, Copy, Debug, PartialEq, Eq, Structural, PartialOrd, Ord, Hash)]
pub struct Version(u8);

impl Version {
    pub closed spec fn spec_value(self) -> u8 {
        self.0
    }

    pub fn new(value: u8) -> (r: Version)
        ensures
            r.spec_value() == value,
    {
        Version(value)
    }

    #[verifier::when_used_as_spec(spec_value)]
    pub fn value(self) -> (r: u8)
        ensures
            r == self.spec_value(),
    {
        self.0
    }
}

/// The name of an event kind: a non-empty string.
#[derive(Clone, Debug, PartialEq, Eq, PartialOrd, Ord, Hash)]
pub struct Identifier(String);

impl View for Identifier {
    type V = Seq<char>;

    closed spec fn view(&self) -> Seq<char> {
        self.0@
    }
}

impl Identifier {
    pub fn new(value: String) -> (r: Identifier)
        requires
            value@.len() > 0,
        ensures
            r@ == value@,
    {
        Identifier(value)
    }

    pub fn value(&self) -> (r: &str)
        ensures
            r@ == self@,
    {
        self.0.as_str()
    }
}

/// An event kind at a schema revision.
#[derive(Clone, Debug, PartialEq, Eq, PartialOrd, Ord, Hash)]
pub struct Descriptor(Identifier, Version);

impl Descriptor {
    pub closed spec fn spec_identifier(&self) -> Identifier {
        self.0
    }

    pub closed spec fn spec_version(&self) -> Version {
        self.1
    }

    pub fn new(identifier: Identifier, version: Version) -> (r: Descriptor)
        ensures
            r.spec_identifier() == identifier,
            r.spec_version() == version,
    {
        Descriptor(identifier, version)
    }

    pub fn identifier(&self) -> (r: &Identifier)
        ensures
            *r == self.spec_identifier(),
    {
        &self.0
    }

    pub fn version(&self) -> (r: &Version)
        ensures
            *r == self.spec_version(),
    {
        &self.1
    }

    pub fn take(self) -> (r: (Identifier, Version))
        ensures
            r.0 == self.spec_identifier(),
            r.1 == self.spec_version(),
    {
        (self.0, self.1)
    }
}

/// A query over the events of one identifier, optionally limited to the
/// versions of a half-open range.
#[derive(Clone, Debug, PartialEq, Eq)]
pub struct Specifier(Identifier, Option<Range<Version>>);

impl Specifier {
    pub closed spec fn spec_identifier(&self) -> Identifier {
        self.0
    }

    pub closed spec fn spec_range(&self) -> Option<Range<Version>> {
        self.1
    }

    pub fn new(identifier: Identifier, range: Option<Range<Version>>) -> (r: Specifier)
        ensures
            r.spec_identifier() == identifier,
            r.spec_range() == range,
    {
        Specifier(identifier, range)
    }

    pub fn identifier(&self) -> (r: &Identifier)
        ensures
            *r == self.spec_identifier(),
    {
        &self.0
    }

    pub fn range(&self) -> (r: Option<&Range<Version>>)
        ensures
            r == match self.spec_range() {
                Some(range) => Some(&range),
                None => None::<&Range<Version>>,
            },
    {
        match &self.1 {
            Some(range) => Some(range),
            None => None,
        }
    }

    pub fn take(self) -> (r: (Identifier, Option<Range<Version>>))
        ensures
            r.0 == self.spec_identifier(),
            r.1 == self.spec_range(),
    {
        (self.0, self.1)
    }
}

/// A free-form string annotation of an event: a non-empty string.
#[derive(Clone, Debug, PartialEq, Eq, PartialOrd, Ord, Hash)]
pub struct Tag(String);

impl View for Tag {
    type V = Seq<char>;

    closed spec fn view(&self) -> Seq<char> {
        self.0@
    }
}

impl Tag {
    pub fn new(value: String) -> (r: Tag)
        requires
            value@.len() > 0,
        ensures
            r@ == value@,
    {
        Tag(value)
    }

    pub fn value(&self) -> (r: &str)
        ensures
            r@ == self@,
    {
        self.0.as_str()
    }
}

/// What an event holds, as plain values.
pub struct EventView {
    pub data: Seq<u8>,
    pub identifier: Seq<char>,
    pub version: u8,
    pub tags: Seq<Seq<char>>,
}

/// The unit of appending: an opaque payload, a descriptor and tags.
#[derive(Debug)]
pub struct Event {
    pub data: Vec<u8>,
    pub descriptor: Descriptor,
    pub tags: Vec<Tag>,
}

impl View for Event {
    type V = EventView;

    open spec fn view(&self) -> EventView {
        EventView {
            data: self.data@,
            identifier: self.descriptor.spec_identifier()@,
            version: self.descriptor.spec_version().spec_value(),
            tags: self.tags@.map_values(|t: Tag| t@),
        }
    }
}

impl Event {
    pub fn new(data: Vec<u8>, descriptor: Descriptor, tags: Vec<Tag>) -> (r: Event)
        ensures
            r.data == data,
            r.descriptor == descriptor,
            r.tags == tags,
    {
        Event { data, descriptor, tags }
    }
}

} // verus!
