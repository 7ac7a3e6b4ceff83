//! Lookups in the configuration.

use crate::text::{eq_ignoring_case, equal_ignoring_case, lemma_equal_ignoring_case_carries_over};
use crate::text_laws::{are_same_letters, law_case_is_thirty_two_codes};
use crate::types::{ConfigFile, EcuDefinition};
use vstd::prelude::*;

verus! {

/// The configuration has no ECU of the name that was asked for.
#[derive(Debug, Clone, Copy, PartialEq, Eq, Structural)]
pub struct UnknownEcu;

/// Whether the ECU at `index` is the first one that goes by `name`, in whatever case.
pub open spec fn is_first_named(ecus: Seq<EcuDefinition>, name: Seq<char>, index: int) -> bool {
    &&& 0 <= index < ecus.len()
    &&& equal_ignoring_case(ecus[index].name@, name)
    &&& forall|earlier: int|
        0 <= earlier < index ==> !equal_ignoring_case((#[trigger] ecus[earlier]).name@, name)
}

/// The first ECU of a name, in whatever case the name is written.
pub fn select_ecu(config: &ConfigFile, name: &str) -> (result: Result<EcuDefinition, UnknownEcu>)
    ensures
        match result {
            Ok(ecu) => exists|index: int|
                #![trigger config.ecus@[index]]
                is_first_named(config.ecus@, name@, index) && ecu == config.ecus@[index],
            Err(_) => forall|index: int|
                0 <= index < config.ecus@.len() ==> !equal_ignoring_case(
                    (#[trigger] config.ecus@[index]).name@,
                    name@,
                ),
        },
{
    let mut index: usize = 0;
    while index < config.ecus.len()
        invariant
            index <= config.ecus@.len(),
            forall|earlier: int|
                0 <= earlier < index ==> !equal_ignoring_case(
                    (#[trigger] config.ecus@[earlier]).name@,
                    name@,
                ),
        decreases config.ecus@.len() - index,
    {
        if eq_ignoring_case(config.ecus[index].name.as_str(), name) {
            assert(is_first_named(config.ecus@, name@, index as int));
            return Ok(config.ecus[index].clone());
        }
        index += 1;
    }
    Err(UnknownEcu)
}

impl ConfigFile {
    /// Whether the configuration lists a bit rate.
    pub fn supports_bit_rate(&self, bit_rate: u32) -> (listed: bool)
        ensures
            listed == self.supported_bit_rates@.contains(bit_rate),
    {
        let mut index: usize = 0;
        while index < self.supported_bit_rates.len()
            invariant
                index <= self.supported_bit_rates@.len(),
                forall|earlier: int|
                    0 <= earlier < index ==> #[trigger] self.supported_bit_rates@[earlier]
                        != bit_rate,
            decreases self.supported_bit_rates@.len() - index,
        {
            if self.supported_bit_rates[index] == bit_rate {
                return true;
            }
            index += 1;
        }
        false
    }
}

/// A name finds the same ECU in whatever case its ASCII letters are written.
pub proof fn law_ecu_name_case_is_ignored(
    ecus: Seq<EcuDefinition>,
    name: Seq<char>,
    other: Seq<char>,
    index: int,
)
    requires
        equal_ignoring_case(name, other),
    ensures
        is_first_named(ecus, name, index) <==> is_first_named(ecus, other, index),
{
    assert forall|i: int| 0 <= i < ecus.len() implies (equal_ignoring_case(
        (#[trigger] ecus[i]).name@,
        name,
    ) <==> equal_ignoring_case(ecus[i].name@, other)) by {
        lemma_equal_ignoring_case_carries_over(ecus[i].name@, name, other);
    }
}

/// At most one ECU is the first of its name.
pub proof fn law_first_named_is_unique(
    ecus: Seq<EcuDefinition>,
    name: Seq<char>,
    first: int,
    second: int,
)
    requires
        is_first_named(ecus, name, first),
        is_first_named(ecus, name, second),
    ensures
        first == second,
{
    if first < second {
        assert(!equal_ignoring_case(ecus[first].name@, name));
    }
    if second < first {
        assert(!equal_ignoring_case(ecus[second].name@, name));
    }
}

/// An ECU is chosen where its name is the one that is asked for, letter by letter but for case, and
/// no ECU before it has that name.
pub proof fn law_an_ecu_is_chosen_by_its_letters(
    ecus: Seq<EcuDefinition>,
    name: Seq<char>,
    index: int,
)
    ensures
        is_first_named(ecus, name, index) <==> {
            &&& 0 <= index < ecus.len()
            &&& are_same_letters(ecus[index].name@, name)
            &&& forall|i: int|
                0 <= i < index ==> !are_same_letters((#[trigger] ecus[i]).name@, name)
        },
{
    assert forall|i: int| 0 <= i < ecus.len() implies (equal_ignoring_case(
        (#[trigger] ecus[i]).name@,
        name,
    ) <==> are_same_letters(ecus[i].name@, name)) by {
        law_case_is_thirty_two_codes(ecus[i].name@, name);
    }
}

} // verus!
