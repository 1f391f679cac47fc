//! Blueprint-domain types: reusable operation templates with parameters and
//! steps, their lifecycle, and their instantiation.

use vstd::prelude::*;
use crate::errors::{FoundationError, FoundationResult, is_validation_failed};
use crate::id::{BlueprintDomain, DeterministicId, id_hex_of};
use crate::ordered_map::OrderedMap;
use crate::text::{to_owned_string, str_equal, string_seq_view, dec_nat};
use crate::time::LogicalTimestamp;
use crate::types::{PropertyMap, VersionInfo};
use vstd::string::StringSliceAdditionalSpecFns;

verus! {

/// The lifecycle status of a blueprint.
#[derive(Debug, Clone, Copy, PartialEq, Eq, Structural, Hash)]
pub enum BlueprintStatus {
    Draft,
    Active,
    Deprecated,
    Archived,
}

impl BlueprintStatus {
    /// The displayed name of the status.
    pub open spec fn label(self) -> Seq<char> {
        match self {
            BlueprintStatus::Draft => "DRAFT"@,
            BlueprintStatus::Active => "ACTIVE"@,
            BlueprintStatus::Deprecated => "DEPRECATED"@,
            BlueprintStatus::Archived => "ARCHIVED"@,
        }
    }

    /// The displayed name (`"DRAFT"` .. `"ARCHIVED"`).
    pub fn display_string(&self) -> (s: String)
        ensures
            s@ == self.label(),
    {
        match self {
            BlueprintStatus::Draft => to_owned_string("DRAFT"),
            BlueprintStatus::Active => to_owned_string("ACTIVE"),
            BlueprintStatus::Deprecated => to_owned_string("DEPRECATED"),
            BlueprintStatus::Archived => to_owned_string("ARCHIVED"),
        }
    }
}

/// The type of a parameter.
#[derive(Debug, Clone, Copy, PartialEq, Eq, Structural)]
pub enum ParameterType {
    String,
    Integer,
    Float,
    Boolean,
    List,
    KeyValue,
}

/// A parameter of a blueprint.
#[derive(Debug)]
pub struct ParameterDef {
    pub name: String,
    pub param_type: ParameterType,
    pub required: bool,
    pub default_value: Option<String>,
    pub description: String,
}

impl ParameterDef {
    /// A parameter without default value or description.
    pub fn new(name: &str, param_type: ParameterType, required: bool) -> (p: Self)
        ensures
            p.name@ == name@,
            p.param_type == param_type,
            p.required == required,
            p.default_value is None,
            p.description@ == Seq::<char>::empty(),
    {
        ParameterDef {
            name: to_owned_string(name),
            param_type,
            required,
            default_value: None,
            description: String::new(),
        }
    }

    /// The parameter with the given default value.
    pub fn with_default(self, default: &str) -> (p: Self)
        ensures
            p.default_value matches Some(d) && d@ == default@,
            p.name == self.name,
            p.param_type == self.param_type,
            p.required == self.required,
            p.description == self.description,
    {
        let mut p = self;
        p.default_value = Some(to_owned_string(default));
        p
    }

    /// The parameter with the given description.
    pub fn with_description(self, desc: &str) -> (p: Self)
        ensures
            p.description@ == desc@,
            p.name == self.name,
            p.param_type == self.param_type,
            p.required == self.required,
            p.default_value == self.default_value,
    {
        let mut p = self;
        p.description = to_owned_string(desc);
        p
    }
}

/// A step of a blueprint's plan.
#[derive(Debug)]
pub struct BlueprintStep {
    pub name: String,
    pub operation: String,
    pub parameters: OrderedMap<String>,
    pub depends_on: Vec<String>,
    pub description: String,
}

/// The parameter values as text.
pub open spec fn param_texts(m: Map<Seq<char>, String>) -> Map<Seq<char>, Seq<char>> {
    m.map_values(|v: String| v@)
}

impl BlueprintStep {
    /// A step without parameters, dependencies or description.
    pub fn new(name: &str, operation: &str) -> (s: Self)
        ensures
            s.name@ == name@,
            s.operation@ == operation@,
            s.parameters@ == Map::<Seq<char>, String>::empty(),
            s.depends_on@ == Seq::<String>::empty(),
            s.description@ == Seq::<char>::empty(),
    {
        BlueprintStep {
            name: to_owned_string(name),
            operation: to_owned_string(operation),
            parameters: OrderedMap::new(),
            depends_on: Vec::new(),
            description: String::new(),
        }
    }

    /// The step with parameter `key` set to `value`.
    pub fn with_param(self, key: &str, value: &str) -> (s: Self)
        ensures
            param_texts(s.parameters@) == param_texts(self.parameters@).insert(key@, value@),
            s.name == self.name,
            s.operation == self.operation,
            s.depends_on == self.depends_on,
            s.description == self.description,
    {
        let mut s = self;
        let _ = s.parameters.insert(to_owned_string(key), to_owned_string(value));
        assert(param_texts(s.parameters@) =~= param_texts(self.parameters@).insert(key@, value@));
        s
    }

    /// The step with one more dependency, after the existing ones.
    pub fn with_dependency(self, dep: &str) -> (s: Self)
        ensures
            string_seq_view(s.depends_on@) == string_seq_view(self.depends_on@).push(dep@),
            s.name == self.name,
            s.operation == self.operation,
            s.parameters == self.parameters,
            s.description == self.description,
    {
        let mut s = self;
        s.depends_on.push(to_owned_string(dep));
        assert(string_seq_view(s.depends_on@) =~= string_seq_view(self.depends_on@).push(dep@));
        s
    }
}

/// A reusable blueprint: parameters, steps and lifecycle status.
#[derive(Debug)]
pub struct BlueprintDef {
    pub id: DeterministicId<BlueprintDomain>,
    pub name: String,
    pub description: String,
    pub version: VersionInfo,
    pub status: BlueprintStatus,
    pub parameters: Vec<ParameterDef>,
    pub steps: Vec<BlueprintStep>,
    pub properties: PropertyMap,
    pub created_at: LogicalTimestamp,
    pub updated_at: LogicalTimestamp,
}

/// The names of the steps.
pub open spec fn step_names(steps: Seq<BlueprintStep>) -> Seq<Seq<char>> {
    steps.map_values(|s: BlueprintStep| s.name@)
}

/// The names of the parameters.
pub open spec fn param_names(params: Seq<ParameterDef>) -> Seq<Seq<char>> {
    params.map_values(|p: ParameterDef| p.name@)
}

/// Whether dependency `j` of step `i` names no step.
pub open spec fn dangling(steps: Seq<BlueprintStep>, i: int, j: int) -> bool {
    &&& 0 <= i < steps.len()
    &&& 0 <= j < steps[i].depends_on@.len()
    &&& !step_names(steps).contains(steps[i].depends_on@[j]@)
}

/// Whether `(i, j)` comes before `(k, l)` in step-then-dependency order.
pub open spec fn pair_before(i: int, j: int, k: int, l: int) -> bool {
    i < k || (i == k && j < l)
}

/// The text of the error for a dangling dependency.
pub open spec fn unknown_step_message(step: Seq<char>, dep: Seq<char>) -> Seq<char> {
    "step '"@ + step + "' depends on unknown step '"@ + dep + "'"@
}

/// Whether parameter `i` is required, has no default, and has no value.
pub open spec fn missing_param(params: Seq<ParameterDef>, values: Map<Seq<char>, String>, i: int) -> bool {
    &&& 0 <= i < params.len()
    &&& params[i].required
    &&& !values.contains_key(params[i].name@)
    &&& params[i].default_value is None
}

/// A dependency is dangling exactly when no step carries its name: a
/// dependency on any step of the blueprint (itself included) is fine, so a
/// blueprint whose every dependency names one of its steps has none
/// dangling.
pub proof fn lemma_dangling_rule(steps: Seq<BlueprintStep>)
    ensures
        forall|i: int, j: int, k: int| 0 <= i < steps.len() && 0 <= j < steps[i].depends_on@.len()
            && 0 <= k < steps.len() && #[trigger] steps[i].depends_on@[j]@ == #[trigger] steps[k].name@
            ==> !dangling(steps, i, j),
        forall|i: int, j: int| 0 <= i < steps.len() && 0 <= j < steps[i].depends_on@.len()
            && (forall|k: int| 0 <= k < steps.len() ==> #[trigger] steps[k].name@ != steps[i].depends_on@[j]@)
            ==> #[trigger] dangling(steps, i, j),
{
    assert forall|i: int, j: int, k: int| 0 <= i < steps.len() && 0 <= j < steps[i].depends_on@.len()
        && 0 <= k < steps.len() && #[trigger] steps[i].depends_on@[j]@ == #[trigger] steps[k].name@
        implies !dangling(steps, i, j) by {
        assert(step_names(steps)[k] == steps[k].name@);
    }
    assert forall|i: int, j: int| 0 <= i < steps.len() && 0 <= j < steps[i].depends_on@.len()
        && (forall|k: int| 0 <= k < steps.len() ==> #[trigger] steps[k].name@ != steps[i].depends_on@[j]@)
        implies #[trigger] dangling(steps, i, j) by {
        if step_names(steps).contains(steps[i].depends_on@[j]@) {
            let k = choose|k: int| 0 <= k < step_names(steps).len() && step_names(steps)[k] == steps[i].depends_on@[j]@;
            assert(step_names(steps)[k] == steps[k].name@);
        }
    }
}

/// A parameter blocks instantiation exactly when it is required, has no
/// default value and was given no value: an optional parameter, one with a
/// default, or one given a value never does.  So instantiation succeeds
/// whenever every required parameter has a value or a default.
pub proof fn lemma_missing_param_rule(params: Seq<ParameterDef>, values: Map<Seq<char>, String>)
    ensures
        forall|i: int| 0 <= i < params.len() && (#[trigger] params[i]).default_value is Some
            ==> !missing_param(params, values, i),
        forall|i: int| 0 <= i < params.len() && values.contains_key((#[trigger] params[i]).name@)
            ==> !missing_param(params, values, i),
        forall|i: int| 0 <= i < params.len() && !(#[trigger] params[i]).required
            ==> !missing_param(params, values, i),
        forall|i: int| 0 <= i < params.len() && (#[trigger] params[i]).required && params[i].default_value is None
            && !values.contains_key(params[i].name@) ==> missing_param(params, values, i),
        (forall|i: int| 0 <= i < params.len() && (#[trigger] params[i]).required
            ==> values.contains_key(params[i].name@) || params[i].default_value is Some)
            ==> forall|i: int| !#[trigger] missing_param(params, values, i),
{
}

impl BlueprintDef {
    /// A draft blueprint at version 0.1.0, identified by its name.
    pub fn new(name: &str, description: &str, ts: LogicalTimestamp) -> (b: Self)
        ensures
            b.id@ == id_hex_of::<BlueprintDomain>(name.spec_bytes()),
            b.name@ == name@,
            b.description@ == description@,
            b.version == (VersionInfo { major: 0, minor: 1, patch: 0 }),
            b.status == BlueprintStatus::Draft,
            b.parameters@ == Seq::<ParameterDef>::empty(),
            b.steps@ == Seq::<BlueprintStep>::empty(),
            b.properties@ == Map::<Seq<char>, crate::types::PropertyValue>::empty(),
            b.created_at == ts,
            b.updated_at == ts,
    {
        BlueprintDef {
            id: DeterministicId::from_content(name),
            name: to_owned_string(name),
            description: to_owned_string(description),
            version: VersionInfo::new(0, 1, 0),
            status: BlueprintStatus::Draft,
            parameters: Vec::new(),
            steps: Vec::new(),
            properties: PropertyMap::new(),
            created_at: ts,
            updated_at: ts,
        }
    }

    /// Appends a parameter.
    pub fn add_parameter(&mut self, param: ParameterDef)
        ensures
            final(self).parameters@ == old(self).parameters@.push(param),
            final(self).steps == old(self).steps,
            final(self).status == old(self).status,
            final(self).updated_at == old(self).updated_at,
    {
        self.parameters.push(param);
    }

    /// Appends a step.
    pub fn add_step(&mut self, step: BlueprintStep)
        ensures
            final(self).steps@ == old(self).steps@.push(step),
            final(self).parameters == old(self).parameters,
            final(self).status == old(self).status,
            final(self).updated_at == old(self).updated_at,
    {
        self.steps.push(step);
    }

    /// Draft -> Active at `ts`; any other status is an error and nothing
    /// changes.
    pub fn activate(&mut self, ts: LogicalTimestamp) -> (r: FoundationResult<()>)
        ensures
            r is Ok <==> old(self).status == BlueprintStatus::Draft,
            r is Ok ==> final(self).status == BlueprintStatus::Active && final(self).updated_at == ts,
            r is Err ==> final(self).status == old(self).status && final(self).updated_at == old(self).updated_at
                && is_validation_failed(r, "only draft blueprints can be activated"@),
            final(self).parameters == old(self).parameters,
            final(self).steps == old(self).steps,
    {
        if self.status != BlueprintStatus::Draft {
            return Err(FoundationError::ValidationFailed(to_owned_string("only draft blueprints can be activated")));
        }
        self.status = BlueprintStatus::Active;
        self.updated_at = ts;
        Ok(())
    }

    /// Active -> Deprecated at `ts`; any other status is an error and
    /// nothing changes.
    pub fn deprecate(&mut self, ts: LogicalTimestamp) -> (r: FoundationResult<()>)
        ensures
            r is Ok <==> old(self).status == BlueprintStatus::Active,
            r is Ok ==> final(self).status == BlueprintStatus::Deprecated && final(self).updated_at == ts,
            r is Err ==> final(self).status == old(self).status && final(self).updated_at == old(self).updated_at
                && is_validation_failed(r, "only active blueprints can be deprecated"@),
            final(self).parameters == old(self).parameters,
            final(self).steps == old(self).steps,
    {
        if self.status != BlueprintStatus::Active {
            return Err(FoundationError::ValidationFailed(to_owned_string("only active blueprints can be deprecated")));
        }
        self.status = BlueprintStatus::Deprecated;
        self.updated_at = ts;
        Ok(())
    }

    fn has_step_named(&self, name: &str) -> (b: bool)
        ensures
            b == step_names(self.steps@).contains(name@),
    {
        let mut k: usize = 0;
        while k < self.steps.len()
            invariant
                k <= self.steps@.len(),
                forall|m: int| 0 <= m < k ==> self.steps@[m].name@ != name@,
            decreases self.steps.len() - k,
        {
            if str_equal(self.steps[k].name.as_str(), name) {
                assert(step_names(self.steps@)[k as int] == name@);
                return true;
            }
            k = k + 1;
        }
        proof {
            if step_names(self.steps@).contains(name@) {
                let m = choose|m: int| 0 <= m < self.steps@.len() && step_names(self.steps@)[m] == name@;
                assert(self.steps@[m].name@ == name@);
            }
        }
        false
    }

    /// `Ok(())` when every dependency of every step names a step; otherwise
    /// the error names the first dangling dependency (in step order, then
    /// dependency order).
    pub fn validate_steps(&self) -> (r: FoundationResult<()>)
        ensures
            r is Ok <==> forall|i: int, j: int| !#[trigger] dangling(self.steps@, i, j),
            r is Err ==> exists|i: int, j: int| #[trigger] dangling(self.steps@, i, j)
                && (forall|k: int, l: int| #[trigger] pair_before(k, l, i, j) ==> !dangling(self.steps@, k, l))
                && is_validation_failed(r, unknown_step_message(self.steps@[i].name@, self.steps@[i].depends_on@[j]@)),
    {
        let mut i: usize = 0;
        while i < self.steps.len()
            invariant
                i <= self.steps@.len(),
                forall|k: int, l: int| k < i ==> !#[trigger] dangling(self.steps@, k, l),
            decreases self.steps.len() - i,
        {
            let step = &self.steps[i];
            let mut j: usize = 0;
            while j < step.depends_on.len()
                invariant
                    i < self.steps@.len(),
                    *step == self.steps@[i as int],
                    j <= step.depends_on@.len(),
                    forall|k: int, l: int| k < i ==> !#[trigger] dangling(self.steps@, k, l),
                    forall|l: int| l < j ==> !#[trigger] dangling(self.steps@, i as int, l),
                decreases step.depends_on.len() - j,
            {
                let dep = &step.depends_on[j];
                if !self.has_step_named(dep.as_str()) {
                    let mut m = to_owned_string("step '");
                    m.append(step.name.as_str());
                    m.append("' depends on unknown step '");
                    m.append(dep.as_str());
                    m.append("'");
                    let r: FoundationResult<()> = Err(FoundationError::ValidationFailed(m));
                    proof {
                        assert(dangling(self.steps@, i as int, j as int));
                        assert forall|k: int, l: int| #[trigger] pair_before(k, l, i as int, j as int)
                            implies !dangling(self.steps@, k, l) by {
                            if k == i {
                                assert(l < j);
                            }
                        }
                    }
                    return r;
                }
                j = j + 1;
            }
            proof {
                assert forall|k: int, l: int| k < i + 1 implies !#[trigger] dangling(self.steps@, k, l) by {
                    if k == i && 0 <= l < step.depends_on@.len() {
                        assert(!dangling(self.steps@, i as int, l));
                    }
                }
            }
            i = i + 1;
        }
        Ok(())
    }

    /// `Ok(())` when no two parameters share a name.
    pub fn validate_parameters(&self) -> (r: FoundationResult<()>)
        ensures
            r is Ok <==> param_names(self.parameters@).no_duplicates(),
            r is Err ==> is_validation_failed(r, "duplicate parameter names"@),
    {
        let n = self.parameters.len();
        let ghost names = param_names(self.parameters@);
        let mut i: usize = 0;
        while i < n
            invariant
                n == self.parameters@.len(),
                names == param_names(self.parameters@),
                i <= n,
                forall|a: int, b: int| 0 <= a < b < n && a < i ==> names[a] != names[b],
            decreases n - i,
        {
            let mut j: usize = i + 1;
            while j < n
                invariant
                    n == self.parameters@.len(),
                    names == param_names(self.parameters@),
                    i < n,
                    i + 1 <= j <= n,
                    forall|a: int, b: int| 0 <= a < b < n && a < i ==> names[a] != names[b],
                    forall|b: int| i < b < j ==> names[i as int] != names[b],
                decreases n - j,
            {
                if str_equal(self.parameters[i].name.as_str(), self.parameters[j].name.as_str()) {
                    assert(names[i as int] == names[j as int]);
                    return Err(FoundationError::ValidationFailed(to_owned_string("duplicate parameter names")));
                }
                j = j + 1;
            }
            i = i + 1;
        }
        Ok(())
    }
}

/// An instance of a blueprint with concrete parameter values.
#[derive(Debug)]
pub struct BlueprintInstance {
    pub blueprint_id: DeterministicId<BlueprintDomain>,
    pub instance_id: String,
    pub parameter_values: OrderedMap<String>,
    pub created_at: LogicalTimestamp,
}

/// The text of the error for a missing required parameter.
pub open spec fn missing_param_message(name: Seq<char>) -> Seq<char> {
    "required parameter '"@ + name + "' not provided"@
}

impl BlueprintInstance {
    /// An instance of `blueprint` at `ts`, named `"<short id>-<ts>"`.  It is
    /// refused when a required parameter without default has no value; the
    /// error names the first such parameter.
    pub fn new(blueprint: &BlueprintDef, parameter_values: OrderedMap<String>, ts: LogicalTimestamp)
        -> (r: FoundationResult<Self>)
        ensures
            r is Ok <==> forall|i: int| !#[trigger] missing_param(blueprint.parameters@, parameter_values@, i),
            r matches Ok(inst) ==> {
                &&& inst.blueprint_id@ == blueprint.id@
                &&& inst.instance_id@ == blueprint.id@.subrange(0, 8) + "-"@ + dec_nat(ts@ as nat)
                &&& inst.parameter_values == parameter_values
                &&& inst.created_at == ts
            },
            r is Err ==> exists|i: int| #[trigger] missing_param(blueprint.parameters@, parameter_values@, i)
                && (forall|k: int| 0 <= k < i ==> !#[trigger] missing_param(blueprint.parameters@, parameter_values@, k))
                && is_validation_failed(r, missing_param_message(blueprint.parameters@[i].name@)),
    {
        let mut i: usize = 0;
        while i < blueprint.parameters.len()
            invariant
                i <= blueprint.parameters@.len(),
                forall|k: int| k < i ==> !#[trigger] missing_param(blueprint.parameters@, parameter_values@, k),
            decreases blueprint.parameters.len() - i,
        {
            let param = &blueprint.parameters[i];
            if param.required && !parameter_values.contains_key(param.name.as_str()) && param.default_value.is_none() {
                let mut m = to_owned_string("required parameter '");
                m.append(param.name.as_str());
                m.append("' not provided");
                assert(missing_param(blueprint.parameters@, parameter_values@, i as int));
                return Err(FoundationError::ValidationFailed(m));
            }
            i = i + 1;
        }
        let mut instance_id = to_owned_string(blueprint.id.short());
        instance_id.append("-");
        crate::text::append_u64_dec(&mut instance_id, ts.value());
        Ok(BlueprintInstance {
            blueprint_id: blueprint.id.duplicate(),
            instance_id,
            parameter_values,
            created_at: ts,
        })
    }

    /// The value of the named parameter.
    pub fn get_param(&self, name: &str) -> (r: Option<&String>)
        ensures
            r is Some <==> self.parameter_values@.contains_key(name@),
            r matches Some(v) ==> *v == self.parameter_values@[name@],
    {
        self.parameter_values.get(name)
    }
}

} // verus!
