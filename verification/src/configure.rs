//! Descriptions of a sampler's tunable parameters, for tooling that
//! discovers and changes them without knowing the sampler.
//!
//! A configurable sampler publishes a fixed, ordered list of parameters.
//! Its accessors come in the same order, one slot per parameter, each slot
//! typed as the parameter's description says.
use crate::types::CanLogit;
use vstd::prelude::*;

verus! {

/// The type of a parameter's value.
#[derive(Clone, Copy, Debug, PartialEq, Eq, Structural)]
pub enum SamplerOptionType {
    /// An unsigned integer.
    UInt,
    /// A scalar of the sampler's logit type.
    Float,
}

/// The description of one parameter.
#[derive(Debug, Clone, Copy, PartialEq, Eq)]
pub struct SamplerOptionMetadata {
    /// The parameter's key.
    pub key: &'static str,
    /// What the parameter means, for a human reader.
    pub description: Option<&'static str>,
    /// The type of the parameter's value.
    pub option_type: SamplerOptionType,
}

/// The mathematical content of a [`SamplerOptionMetadata`].
pub struct OptionMetadataView {
    pub key: Seq<char>,
    pub description: Option<Seq<char>>,
    pub option_type: SamplerOptionType,
}

impl View for SamplerOptionMetadata {
    type V = OptionMetadataView;

    open spec fn view(&self) -> OptionMetadataView {
        OptionMetadataView {
            key: self.key@,
            description: match self.description {
                Some(text) => Some(text@),
                None => None,
            },
            option_type: self.option_type,
        }
    }
}

/// The description of a sampler: its name, what it does, and its
/// parameters in order.
#[derive(Debug, PartialEq, Eq)]
pub struct SamplerMetadata {
    pub name: &'static str,
    pub description: Option<&'static str>,
    pub options: Vec<SamplerOptionMetadata>,
}

/// The mathematical content of a [`SamplerMetadata`].
pub struct SamplerMetadataView {
    pub name: Seq<char>,
    pub description: Option<Seq<char>>,
    pub options: Seq<OptionMetadataView>,
}

impl View for SamplerMetadata {
    type V = SamplerMetadataView;

    open spec fn view(&self) -> SamplerMetadataView {
        SamplerMetadataView {
            name: self.name@,
            description: match self.description {
                Some(text) => Some(text@),
                None => None,
            },
            options: Seq::new(self.options@.len(), |i: int| self.options@[i]@),
        }
    }
}

/// The present value of a parameter.
#[derive(Debug, PartialEq)]
pub enum SamplerOptionValue<L> {
    UInt(usize),
    Float(L),
}

impl<L: Copy> Clone for SamplerOptionValue<L> {
    fn clone(&self) -> (r: Self)
        ensures
            r == *self,
    {
        *self
    }
}

impl<L: Copy> Copy for SamplerOptionValue<L> {

}

impl<L> SamplerOptionValue<L> {
    /// The type tag that this value answers to.
    pub open spec fn option_type(self) -> SamplerOptionType {
        match self {
            SamplerOptionValue::UInt(_) => SamplerOptionType::UInt,
            SamplerOptionValue::Float(_) => SamplerOptionType::Float,
        }
    }
}

/// Write access to a parameter: a reference to where the sampler keeps it.
#[derive(Debug, PartialEq)]
pub enum SamplerOptionValueMut<'a, L> {
    UInt(&'a mut usize),
    Float(&'a mut L),
}

impl<'a, L> SamplerOptionValueMut<'a, L> {
    /// The type tag that this accessor answers to.
    pub open spec fn option_type(self) -> SamplerOptionType {
        match self {
            SamplerOptionValueMut::UInt(_) => SamplerOptionType::UInt,
            SamplerOptionValueMut::Float(_) => SamplerOptionType::Float,
        }
    }
}

/// A sampler's parameters, each description paired with its accessor, in
/// the order of the sampler's metadata. A slot without an accessor is
/// `None`.
#[derive(Debug, PartialEq)]
pub struct SamplerOptions<T> {
    pub options: Vec<(SamplerOptionMetadata, Option<T>)>,
}

impl<T> SamplerOptions<T> {
    /// The descriptions of the slots, in order.
    pub open spec fn descriptions(self) -> Seq<OptionMetadataView> {
        Seq::new(self.options@.len(), |i: int| self.options@[i].0@)
    }

    /// Number of slots.
    pub fn len(&self) -> (r: usize)
        ensures
            r == self.options@.len(),
    {
        self.options.len()
    }

    /// The position of the slot whose key is `key`: the first such slot if
    /// there are several, `None` if there is none.
    pub fn position_of(&self, key: &str) -> (r: Option<usize>)
        ensures
            match r {
                Some(i) => {
                    &&& i < self.options@.len()
                    &&& self.descriptions()[i as int].key == key@
                    &&& forall|j: int| 0 <= j < i ==> (#[trigger] self.descriptions()[j]).key != key@
                },
                None => forall|j: int|
                    0 <= j < self.options@.len() ==> (#[trigger] self.descriptions()[j]).key
                        != key@,
            },
    {
        let n: usize = self.options.len();
        let mut i: usize = 0;
        while i < n
            invariant
                i <= n,
                n == self.options@.len(),
                forall|j: int| 0 <= j < i ==> (#[trigger] self.descriptions()[j]).key != key@,
            decreases n - i,
        {
            if same_text(self.options[i].0.key, key) {
                return Some(i);
            }
            i += 1;
        }
        None
    }
}

/// Whether two strings hold the same characters.
pub fn same_text(a: &str, b: &str) -> (r: bool)
    ensures
        r == (a@ == b@),
{
    let n: usize = a.unicode_len();
    if b.unicode_len() != n {
        return false;
    }
    let mut i: usize = 0;
    while i < n
        invariant
            i <= n,
            n == a@.len(),
            n == b@.len(),
            forall|j: int| 0 <= j < i ==> a@[j] == b@[j],
        decreases n - i,
    {
        if a.get_char(i) != b.get_char(i) {
            return false;
        }
        i += 1;
    }
    proof {
        assert(a@ =~= b@);
    }
    true
}

/// Every slot that has a value holds one of the type that its own
/// description names.
pub open spec fn values_match_types<L>(options: SamplerOptions<SamplerOptionValue<L>>) -> bool {
    forall|i: int|
        0 <= i < options.options@.len() ==> match (#[trigger] options.options@[i]).1 {
            Some(value) => value.option_type() == options.options@[i].0.option_type,
            None => true,
        }
}

/// Every slot that has an accessor holds one of the type that its own
/// description names.
pub open spec fn accessors_match_types<'a, L>(
    options: SamplerOptions<SamplerOptionValueMut<'a, L>>,
) -> bool {
    forall|i: int|
        0 <= i < options.options@.len() ==> match (#[trigger] options.options@[i]).1 {
            Some(slot) => slot.option_type() == options.options@[i].0.option_type,
            None => true,
        }
}

/// A sampler that describes itself and its parameters.
///
/// The three methods agree: the parameter list of the metadata, the slots
/// for reading and the slots for writing are the same descriptions in the
/// same order, and each slot is typed as its description says.
pub trait HasSamplerMetadata<L: CanLogit> {
    /// The sampler's description. It is the same for every value of the
    /// sampler's type.
    spec fn metadata_spec(&self) -> SamplerMetadataView;

    fn sampler_metadata(&self) -> (r: SamplerMetadata)
        ensures
            r@ == self.metadata_spec(),
    ;

    fn sampler_options(&self) -> (r: SamplerOptions<SamplerOptionValue<L>>)
        ensures
            r.descriptions() == self.metadata_spec().options,
            values_match_types(r),
    ;

    fn sampler_options_mut(&mut self) -> (r: SamplerOptions<SamplerOptionValueMut<'_, L>>)
        ensures
            r.descriptions() == old(self).metadata_spec().options,
            accessors_match_types(r),
    ;
}

} // verus!
