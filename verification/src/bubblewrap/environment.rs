//! The environment of a sandboxed command.

use crate::bubblewrap::LaunchFault;
use crate::byte_map::ByteMap;
use crate::byte_set;
use crate::path;
use crate::path::{append_bytes, copy_bytes, holds_byte};
use crate::text;
use crate::text::decimal;
use vstd::prelude::*;
use vstd::string::*;

verus! {

/// A variable with its value.
#[derive(Debug)]
pub struct Variable {
    pub name: Vec<u8>,
    pub value: Vec<u8>,
}

/// What a command is to find in its environment.
#[derive(Debug)]
pub struct EnvironmentPolicy {
    /// Whether nothing is inherited.
    pub clean: bool,
    /// The variables that are not passed on.
    pub strip: Vec<Vec<u8>>,
    /// The variables that are set.
    pub env: Vec<Variable>,
    /// The accelerators that are visible; all where none is named.
    pub gpu_devices: Option<Vec<u32>>,
}

pub const CUDA_DEVICES: &'static str = "CUDA_VISIBLE_DEVICES";

pub const ROCR_DEVICES: &'static str = "ROCR_VISIBLE_DEVICES";

/// A map with variables set one after the other.
pub open spec fn set_all(map: Map<Seq<u8>, Seq<u8>>, variables: Seq<Variable>) -> Map<Seq<u8>, Seq<u8>>
    decreases variables.len(),
{
    if variables.len() == 0 {
        map
    } else {
        set_all(map, variables.drop_last()).insert(variables.last().name@, variables.last().value@)
    }
}

/// A map without some names.
pub open spec fn without_all(map: Map<Seq<u8>, Seq<u8>>, names: Seq<Vec<u8>>) -> Map<Seq<u8>, Seq<u8>>
    decreases names.len(),
{
    if names.len() == 0 {
        map
    } else {
        without_all(map, names.drop_last()).remove(names.last()@)
    }
}

/// Numbers, with commas between them.
pub open spec fn comma_joined(numbers: Seq<u32>) -> Seq<u8>
    decreases numbers.len(),
{
    if numbers.len() == 0 {
        Seq::empty()
    } else if numbers.len() == 1 {
        text::decimal_digits(numbers[0] as int)
    } else {
        comma_joined(numbers.drop_last()).push(0x2c) + text::decimal_digits(numbers.last() as int)
    }
}

/// The accelerators that are named visible.
pub open spec fn visible_devices(policy: EnvironmentPolicy) -> Option<Seq<u8>> {
    match policy.gpu_devices {
        Some(devices) if devices@.len() > 0 => Some(comma_joined(devices@)),
        _ => None,
    }
}

/// The variables of a command.
pub open spec fn environment_of(policy: EnvironmentPolicy, inherited: Seq<Variable>) -> Map<Seq<u8>, Seq<u8>> {
    let passed = if policy.clean {
        Map::empty()
    } else {
        set_all(Map::empty(), inherited)
    };
    let chosen = set_all(without_all(passed, policy.strip@), policy.env@);
    match visible_devices(policy) {
        Some(visible) => chosen.insert(CUDA_DEVICES.spec_bytes(), visible).insert(ROCR_DEVICES.spec_bytes(), visible),
        None => chosen,
    }
}

/// Whether a name holds an equals sign.
pub open spec fn names_equals(variables: Seq<Variable>) -> bool {
    exists|i: int| 0 <= i < variables.len() && (#[trigger] variables[i]).name@.contains(0x3du8)
}

/// A variable as a command finds it: the name, an equals sign, the value.
pub open spec fn assignment(name: Seq<u8>, value: Seq<u8>) -> Seq<u8> {
    name.push(0x3d) + value
}

/// Whether a variable holds a NUL byte.
pub open spec fn holds_nul(map: Map<Seq<u8>, Seq<u8>>) -> bool {
    exists|name: Seq<u8>| map.dom().contains(name) && #[trigger] assignment(name, map[name]).contains(0u8)
}

/// The assignments of a map, by its names in their order.
pub open spec fn assignments(map: Map<Seq<u8>, Seq<u8>>, names: Seq<Seq<u8>>) -> Seq<Seq<u8>> {
    Seq::new(names.len(), |i: int| assignment(names[i], map[names[i]]))
}

/// Whether strings are the assignments of a map, in the order of the names.
pub open spec fn lists_environment(list: Seq<Seq<u8>>, map: Map<Seq<u8>, Seq<u8>>) -> bool {
    exists|names: Seq<Seq<u8>>|
        byte_set::bytes_in_order(names) && names.to_set() == map.dom() && list == #[trigger] assignments(map, names)
}

fn set_variables(map: &mut ByteMap, variables: &Vec<Variable>)
    requires
        old(map).wf(),
    ensures
        final(map).wf(),
        final(map)@ == set_all(old(map)@, variables@),
{
    let ghost start = map@;
    let mut i: usize = 0;
    proof {
        assert(variables@.take(0) =~= Seq::<Variable>::empty());
    }
    while i < variables.len()
        invariant
            i <= variables@.len(),
            map.wf(),
            map@ == set_all(start, variables@.take(i as int)),
        decreases variables@.len() - i,
    {
        map.insert(variables[i].name.as_slice(), variables[i].value.as_slice());
        proof {
            let more = variables@.take(i as int + 1);
            assert(more.drop_last() =~= variables@.take(i as int));
            assert(more.last() == variables@[i as int]);
        }
        i = i + 1;
    }
    proof {
        assert(variables@.take(i as int) =~= variables@);
    }
}

fn join_numbers(numbers: &Vec<u32>) -> (bytes: Vec<u8>)
    ensures
        bytes@ == comma_joined(numbers@),
{
    let mut bytes: Vec<u8> = Vec::new();
    let mut i: usize = 0;
    proof {
        assert(numbers@.take(0) =~= Seq::<u32>::empty());
        assert(bytes@ =~= comma_joined(numbers@.take(0)));
    }
    while i < numbers.len()
        invariant
            i <= numbers@.len(),
            bytes@ == comma_joined(numbers@.take(i as int)),
        decreases numbers@.len() - i,
    {
        let ghost more = numbers@.take(i as int + 1);
        proof {
            assert(more.drop_last() =~= numbers@.take(i as int));
            assert(more.last() == numbers@[i as int]);
        }
        if i > 0 {
            bytes.push(0x2c);
        }
        let ghost before = bytes@;
        let number = decimal(numbers[i] as u64);
        append_bytes(&mut bytes, number.as_slice());
        proof {
            if i == 0 {
                assert(before + number@ =~= number@);
            }
        }
        i = i + 1;
    }
    proof {
        assert(numbers@.take(i as int) =~= numbers@);
    }
    bytes
}

/// The environment of a command, as it is handed over: what is inherited, unless
/// nothing is to be; without what is stripped; then what is set.
pub fn child_environment(policy: &EnvironmentPolicy, inherited: &Vec<Variable>) -> (result: Result<
    Vec<Vec<u8>>,
    LaunchFault,
>)
    ensures
        if names_equals(policy.env@) {
            result == Err::<Vec<Vec<u8>>, LaunchFault>(LaunchFault::EqualsInName)
        } else if holds_nul(environment_of(*policy, inherited@)) {
            result == Err::<Vec<Vec<u8>>, LaunchFault>(LaunchFault::NulByte)
        } else {
            result matches Ok(list) && lists_environment(
                path::byte_views(list@),
                environment_of(*policy, inherited@),
            )
        },
{
    let mut map = ByteMap::new();
    if !policy.clean {
        set_variables(&mut map, inherited);
    }
    let ghost passed = map@;
    let mut i: usize = 0;
    proof {
        assert(policy.strip@.take(0) =~= Seq::<Vec<u8>>::empty());
    }
    while i < policy.strip.len()
        invariant
            i <= policy.strip@.len(),
            map.wf(),
            map@ == without_all(passed, policy.strip@.take(i as int)),
        decreases policy.strip@.len() - i,
    {
        map.remove(policy.strip[i].as_slice());
        proof {
            let more = policy.strip@.take(i as int + 1);
            assert(more.drop_last() =~= policy.strip@.take(i as int));
            assert(more.last() == policy.strip@[i as int]);
        }
        i = i + 1;
    }
    proof {
        assert(policy.strip@.take(i as int) =~= policy.strip@);
    }
    let mut k: usize = 0;
    while k < policy.env.len()
        invariant
            k <= policy.env@.len(),
            forall|j: int| 0 <= j < k ==> !(#[trigger] policy.env@[j]).name@.contains(0x3du8),
        decreases policy.env@.len() - k,
    {
        if holds_byte(policy.env[k].name.as_slice(), 0x3d) {
            return Err(LaunchFault::EqualsInName);
        }
        k = k + 1;
    }
    set_variables(&mut map, &policy.env);
    match &policy.gpu_devices {
        Some(devices) => {
            if devices.len() > 0 {
                let visible = join_numbers(devices);
                map.insert(CUDA_DEVICES.as_bytes(), visible.as_slice());
                map.insert(ROCR_DEVICES.as_bytes(), visible.as_slice());
            }
        },
        None => {},
    }
    let ghost all = environment_of(*policy, inherited@);
    proof {
        assert(map@ == all);
        map.lemma_keys();
    }
    let ghost names = map.keys();
    let mut list: Vec<Vec<u8>> = Vec::new();
    let mut n: usize = 0;
    while n < map.len()
        invariant
            map.wf(),
            map@ == all,
            all == environment_of(*policy, inherited@),
            !names_equals(policy.env@),
            names == map.keys(),
            names.to_set() == all.dom(),
            n <= names.len(),
            list@.len() == n,
            forall|j: int|
                0 <= j < n ==> (#[trigger] list@[j])@ == assignment(names[j], all[names[j]]) && !list@[j]@.contains(0u8),
        decreases names.len() - n,
    {
        let (name, value) = map.item_at(n);
        let mut line = copy_bytes(name);
        line.push(0x3d);
        append_bytes(&mut line, value);
        if holds_byte(line.as_slice(), 0) {
            proof {
                assert(all.dom().contains(name@));
                assert(assignment(name@, all[name@]).contains(0u8));
            }
            return Err(LaunchFault::NulByte);
        }
        list.push(line);
        n = n + 1;
    }
    proof {
        assert(path::byte_views(list@) =~= assignments(all, names));
        assert forall|name: Seq<u8>| all.dom().contains(name) implies !#[trigger] assignment(name, all[name]).contains(
            0u8,
        ) by {
            assert(names.to_set().contains(name));
            let j = choose|j: int| 0 <= j < names.len() && names[j] == name;
            assert(list@[j]@ == assignment(names[j], all[names[j]]));
        }
    }
    Ok(list)
}

proof fn lemma_set_all_keeps(map: Map<Seq<u8>, Seq<u8>>, variables: Seq<Variable>, name: Seq<u8>)
    requires
        forall|i: int| 0 <= i < variables.len() ==> (#[trigger] variables[i]).name@ != name,
    ensures
        set_all(map, variables).dom().contains(name) == map.dom().contains(name),
        map.dom().contains(name) ==> set_all(map, variables)[name] == map[name],
    decreases variables.len(),
{
    if variables.len() > 0 {
        assert(variables.last() == variables[variables.len() - 1]);
        assert forall|i: int| 0 <= i < variables.drop_last().len() implies (#[trigger] variables.drop_last()[i]).name@
            != name by {
            assert(variables.drop_last()[i] == variables[i]);
        }
        lemma_set_all_keeps(map, variables.drop_last(), name);
    }
}

proof fn lemma_without_all(map: Map<Seq<u8>, Seq<u8>>, names: Seq<Vec<u8>>, i: int)
    requires
        0 <= i < names.len(),
    ensures
        !without_all(map, names).dom().contains(names[i]@),
    decreases names.len(),
{
    if i < names.len() - 1 {
        lemma_without_all(map, names.drop_last(), i);
        assert(names.drop_last()[i] == names[i]);
    }
}

/// A variable that is stripped and not set again does not reach the command.
pub proof fn law_stripped_variables_are_gone(policy: EnvironmentPolicy, inherited: Seq<Variable>, i: int)
    requires
        0 <= i < policy.strip@.len(),
        visible_devices(policy) is None,
        forall|j: int| 0 <= j < policy.env@.len() ==> (#[trigger] policy.env@[j]).name@ != policy.strip@[i]@,
    ensures
        !environment_of(policy, inherited).dom().contains(policy.strip@[i]@),
{
    let passed = if policy.clean {
        Map::empty()
    } else {
        set_all(Map::empty(), inherited)
    };
    lemma_without_all(passed, policy.strip@, i);
    lemma_set_all_keeps(without_all(passed, policy.strip@), policy.env@, policy.strip@[i]@);
}

proof fn lemma_unset(map: Map<Seq<u8>, Seq<u8>>, variables: Seq<Variable>, name: Seq<u8>)
    requires
        forall|i: int| 0 <= i < variables.len() ==> (#[trigger] variables[i]).name@ != name,
    ensures
        set_all(map, variables).dom().contains(name) == map.dom().contains(name),
        set_all(map, variables)[name] == map[name],
    decreases variables.len(),
{
    if variables.len() > 0 {
        assert(variables[variables.len() - 1].name@ != name);
        lemma_unset(map, variables.drop_last(), name);
    }
}

proof fn lemma_last_set(map: Map<Seq<u8>, Seq<u8>>, variables: Seq<Variable>, i: int)
    requires
        0 <= i < variables.len(),
        forall|j: int| i < j < variables.len() ==> (#[trigger] variables[j]).name@ != variables[i].name@,
    ensures
        set_all(map, variables).dom().contains(variables[i].name@),
        set_all(map, variables)[variables[i].name@] == variables[i].value@,
    decreases variables.len(),
{
    if i < variables.len() - 1 {
        let rest = variables.drop_last();
        assert(variables[variables.len() - 1].name@ != variables[i].name@);
        assert forall|j: int| i < j < rest.len() implies (#[trigger] rest[j]).name@ != rest[i].name@ by {
            assert(variables[j].name@ != variables[i].name@);
        }
        lemma_last_set(map, rest, i);
    }
}

proof fn lemma_kept(map: Map<Seq<u8>, Seq<u8>>, names: Seq<Vec<u8>>, name: Seq<u8>)
    ensures
        without_all(map, names).dom().contains(name) <==> map.dom().contains(name) && forall|i: int|
            0 <= i < names.len() ==> (#[trigger] names[i])@ != name,
        without_all(map, names).dom().contains(name) ==> without_all(map, names)[name] == map[name],
    decreases names.len(),
{
    if names.len() > 0 {
        let rest = names.drop_last();
        lemma_kept(map, rest, name);
        assert(names[names.len() - 1] == names.last());
        if forall|i: int| 0 <= i < rest.len() ==> (#[trigger] rest[i])@ != name {
            if names.last()@ != name {
                assert forall|i: int| 0 <= i < names.len() implies (#[trigger] names[i])@ != name by {
                    if i < rest.len() {
                        assert(rest[i]@ != name);
                    }
                }
            }
        } else {
            let i = choose|i: int| 0 <= i < rest.len() && (#[trigger] rest[i])@ == name;
            assert(names[i]@ == name);
        }
    }
}

/// A variable that the policy sets has the value that it sets last, and an inherited one
/// that is neither set nor stripped the value that it had last, where the environment is not
/// a clean one; nothing else is there. The devices of a graphics card, where some are chosen,
/// replace whatever was set for them.
pub proof fn law_environments_come_of_policy_and_parent(
    policy: EnvironmentPolicy,
    inherited: Seq<Variable>,
    name: Seq<u8>,
    i: int,
)
    requires
        visible_devices(policy) is None || (name != "CUDA_VISIBLE_DEVICES".spec_bytes() && name
            != "ROCR_VISIBLE_DEVICES".spec_bytes()),
    ensures
        ({
            let made = environment_of(policy, inherited);
            let is_set = exists|k: int| 0 <= k < policy.env@.len() && (#[trigger] policy.env@[k]).name@ == name;
            let is_stripped = exists|k: int| 0 <= k < policy.strip@.len() && (#[trigger] policy.strip@[k])@ == name;
            let is_inherited = exists|k: int| 0 <= k < inherited.len() && (#[trigger] inherited[k]).name@ == name;
            &&& made.dom().contains(name) <==> is_set || (is_inherited && !policy.clean && !is_stripped)
            &&& 0 <= i < policy.env@.len() && policy.env@[i].name@ == name && (forall|j: int|
                i < j < policy.env@.len() ==> (#[trigger] policy.env@[j]).name@ != name) ==> made[name]
                == policy.env@[i].value@
            &&& !is_set && !is_stripped && !policy.clean && 0 <= i < inherited.len() && inherited[i].name@ == name && (
            forall|j: int| i < j < inherited.len() ==> (#[trigger] inherited[j]).name@ != name) ==> made[name]
                == inherited[i].value@
        }),
{
    let passed = if policy.clean {
        Map::empty()
    } else {
        set_all(Map::empty(), inherited)
    };
    let kept = without_all(passed, policy.strip@);
    let chosen = set_all(kept, policy.env@);
    assert(environment_of(policy, inherited).dom().contains(name) == chosen.dom().contains(name));
    assert(environment_of(policy, inherited)[name] == chosen[name]);
    lemma_kept(passed, policy.strip@, name);
    lemma_named(Map::empty(), inherited, name);
    lemma_named(kept, policy.env@, name);
    if 0 <= i < policy.env@.len() && policy.env@[i].name@ == name && (forall|j: int|
        i < j < policy.env@.len() ==> (#[trigger] policy.env@[j]).name@ != name) {
        lemma_last_set(kept, policy.env@, i);
    }
    if 0 <= i < inherited.len() && inherited[i].name@ == name && (forall|j: int|
        i < j < inherited.len() ==> (#[trigger] inherited[j]).name@ != name) {
        lemma_last_set(Map::empty(), inherited, i);
    }
    if !(exists|k: int| 0 <= k < policy.env@.len() && (#[trigger] policy.env@[k]).name@ == name) {
        lemma_unset(kept, policy.env@, name);
    }
}

proof fn lemma_named(map: Map<Seq<u8>, Seq<u8>>, variables: Seq<Variable>, name: Seq<u8>)
    ensures
        set_all(map, variables).dom().contains(name) <==> map.dom().contains(name) || exists|k: int|
            0 <= k < variables.len() && (#[trigger] variables[k]).name@ == name,
    decreases variables.len(),
{
    if variables.len() > 0 {
        let rest = variables.drop_last();
        lemma_named(map, rest, name);
        assert(variables[variables.len() - 1] == variables.last());
        if exists|k: int| 0 <= k < rest.len() && (#[trigger] rest[k]).name@ == name {
            let k = choose|k: int| 0 <= k < rest.len() && (#[trigger] rest[k]).name@ == name;
            assert(variables[k].name@ == name);
        }
        if exists|k: int| 0 <= k < variables.len() && (#[trigger] variables[k]).name@ == name {
            let k = choose|k: int| 0 <= k < variables.len() && (#[trigger] variables[k]).name@ == name;
            if k < rest.len() {
                assert(rest[k].name@ == name);
            }
        }
    }
}

/// Chosen devices of a graphics card are shown under both of their names, as their numbers
/// with commas between them.
pub proof fn law_chosen_devices_are_shown(policy: EnvironmentPolicy, inherited: Seq<Variable>, devices: Vec<u32>, last: u32)
    requires
        policy.gpu_devices == Some(devices),
        devices@.len() > 0,
    ensures
        ({
            let made = environment_of(policy, inherited);
            &&& made.dom().contains("CUDA_VISIBLE_DEVICES".spec_bytes())
            &&& made["CUDA_VISIBLE_DEVICES".spec_bytes()] == comma_joined(devices@)
            &&& made.dom().contains("ROCR_VISIBLE_DEVICES".spec_bytes())
            &&& made["ROCR_VISIBLE_DEVICES".spec_bytes()] == comma_joined(devices@)
        }),
        comma_joined(seq![last]) == text::decimal_digits(last as int),
        comma_joined(devices@.push(last)) == comma_joined(devices@) + seq![0x2cu8] + text::decimal_digits(last as int),
{
    assert(devices@.push(last).drop_last() =~= devices@);
    assert(comma_joined(devices@).push(0x2c) =~= comma_joined(devices@) + seq![0x2cu8]);
}

/// An assignment is the name, an equals sign and the value.
pub proof fn law_assignments_are_names_and_values(name: Seq<u8>, value: Seq<u8>)
    ensures
        assignment(name, value).len() == name.len() + 1 + value.len(),
        assignment(name, value).take(name.len() as int) == name,
        assignment(name, value)[name.len() as int] == 0x3d,
        assignment(name, value).skip(name.len() as int + 1) == value,
{
    assert(assignment(name, value).take(name.len() as int) =~= name);
    assert(assignment(name, value).skip(name.len() as int + 1) =~= value);
}

} // verus!
