//! Inference sessions.
//!
//! A session runs one model. The functions that reach into `ort` are marked as
//! trusted and state what the `ort` functions they call do. A session builder
//! comes from the caller: to make one is to load the inference runtime.

use vstd::prelude::*;
use crate::error::{FaceIdError, FaceIdErrorView, invalid_model};

verus! {

/// `ort::session::Session`: a loaded model.
#[verifier::external_type_specification]
#[verifier::external_body]
pub struct ExSession(ort::session::Session);

/// `ort::session::builder::SessionBuilder`: the options for a session.
#[verifier::external_type_specification]
#[verifier::external_body]
pub struct ExSessionBuilder(ort::session::builder::SessionBuilder);

/// `ort::ep::ExecutionProviderDispatch`: a back end that models can run on.
#[verifier::external_type_specification]
#[verifier::external_body]
pub struct ExExecutionProviderDispatch(ort::ep::ExecutionProviderDispatch);

/// The names of the inputs of a model, in order.
pub uninterp spec fn session_input_names(session: ort::session::Session) -> Seq<Seq<char>>;

/// The number of outputs of a model.
pub uninterp spec fn session_output_count(session: ort::session::Session) -> nat;

/// `ort::session::Session::inputs` and `Outlet::name`: the names of all inputs,
/// in order.
#[verifier::external_body]
fn input_names(session: &ort::session::Session) -> (r: Vec<String>)
    ensures
        r@.map_values(|name: String| name@) == session_input_names(*session),
{
    session.inputs().iter().map(|input| input.name().to_string()).collect()
}

/// `ort::session::Session::outputs`: how many outputs there are.
#[verifier::external_body]
fn output_count(session: &ort::session::Session) -> (r: usize)
    ensures
        r == session_output_count(*session),
{
    session.outputs().len()
}

/// The name of the input that a model is fed through: its first one. A model
/// without inputs or without outputs is of no use.
pub open spec fn usable_input(session: ort::session::Session, no_inputs: Seq<char>, no_outputs: Seq<char>) -> Result<
    Seq<char>,
    FaceIdErrorView,
> {
    if session_input_names(session).len() == 0 {
        Err(FaceIdErrorView::InvalidModel(no_inputs))
    } else if session_output_count(session) == 0 {
        Err(FaceIdErrorView::InvalidModel(no_outputs))
    } else {
        Ok(session_input_names(session)[0])
    }
}

/// The same choice, from the names of the inputs and the number of outputs.
pub fn choose_input(names: Vec<String>, outputs: usize, no_inputs: &str, no_outputs: &str) -> (r: Result<
    String,
    FaceIdError,
>)
    ensures
        names@.len() == 0 ==> (r matches Err(e) && e@ == FaceIdErrorView::InvalidModel(no_inputs@)),
        names@.len() > 0 && outputs == 0 ==> (r matches Err(e) && e@ == FaceIdErrorView::InvalidModel(no_outputs@)),
        names@.len() > 0 && outputs > 0 ==> (r matches Ok(name) && name == names@[0]),
{
    if names.len() == 0 {
        return Err(invalid_model(no_inputs));
    }
    if outputs == 0 {
        return Err(invalid_model(no_outputs));
    }
    let mut left = names;
    Ok(left.swap_remove(0))
}

pub(crate) fn input_name(session: &ort::session::Session, no_inputs: &str, no_outputs: &str) -> (r: Result<
    String,
    FaceIdError,
>)
    ensures
        match usable_input(*session, no_inputs@, no_outputs@) {
            Ok(name) => r matches Ok(n) && n@ == name,
            Err(error) => r matches Err(e) && e@ == error,
        },
{
    let names = input_names(session);
    let ghost seen = names@.map_values(|name: String| name@);
    assert(seen.len() == names@.len());
    assert(names@.len() > 0 ==> seen[0] == names@[0]@);
    choose_input(names, output_count(session), no_inputs, no_outputs)
}

/// Something that was asked of a session builder.
pub enum BuilderSetting {
    ExecutionProviders(Seq<ort::ep::ExecutionProviderDispatch>),
    MemoryPattern(bool),
    ParallelExecution(bool),
}

/// What was asked of a session builder, from first to last.
pub uninterp spec fn builder_settings(builder: ort::session::builder::SessionBuilder) -> Seq<BuilderSetting>;

/// The execution provider is DirectML.
pub uninterp spec fn is_direct_ml(provider: ort::ep::ExecutionProviderDispatch) -> bool;

/// `ort::session::builder::SessionBuilder::with_execution_providers`: asks for
/// the given providers, in order. Each of them may be refused; where there are
/// none, nothing is.
#[verifier::external_body]
fn with_execution_providers(
    builder: ort::session::builder::SessionBuilder,
    providers: &[ort::ep::ExecutionProviderDispatch],
) -> (r: Result<ort::session::builder::SessionBuilder, String>)
    ensures
        r matches Ok(b) ==> builder_settings(b) == builder_settings(builder).push(
            BuilderSetting::ExecutionProviders(providers@),
        ),
        providers@.len() == 0 ==> r is Ok,
{
    builder.with_execution_providers(providers).map_err(|e| e.to_string())
}

/// `ort::session::builder::SessionBuilder::with_memory_pattern`: asks for the
/// memory pattern optimisation, or for none. The runtime may refuse.
#[verifier::external_body]
fn with_memory_pattern(builder: ort::session::builder::SessionBuilder, enable: bool) -> (r: Result<
    ort::session::builder::SessionBuilder,
    String,
>)
    ensures
        r matches Ok(b) ==> builder_settings(b) == builder_settings(builder).push(BuilderSetting::MemoryPattern(enable)),
{
    builder.with_memory_pattern(enable).map_err(|e| e.to_string())
}

/// `ort::session::builder::SessionBuilder::with_parallel_execution`: asks for
/// parallel or for sequential execution. The runtime may refuse.
#[verifier::external_body]
fn with_parallel_execution(builder: ort::session::builder::SessionBuilder, parallel: bool) -> (r: Result<
    ort::session::builder::SessionBuilder,
    String,
>)
    ensures
        r matches Ok(b) ==> builder_settings(b) == builder_settings(builder).push(
            BuilderSetting::ParallelExecution(parallel),
        ),
{
    builder.with_parallel_execution(parallel).map_err(|e| e.to_string())
}

/// `ort::ep::ExecutionProviderDispatch::downcast_ref`: whether the provider is
/// DirectML.
#[verifier::external_body]
fn direct_ml(provider: &ort::ep::ExecutionProviderDispatch) -> (r: bool)
    ensures
        r == is_direct_ml(*provider),
{
    provider.downcast_ref::<ort::ep::DirectML>().is_some()
}

/// DirectML is among the providers.
pub open spec fn has_direct_ml(providers: Seq<ort::ep::ExecutionProviderDispatch>) -> bool {
    exists|i: int| 0 <= i < providers.len() && is_direct_ml(#[trigger] providers[i])
}

/// What has to be asked of a builder for the given providers: DirectML needs
/// sequential execution and no memory patterns.
pub open spec fn required_settings(providers: Seq<ort::ep::ExecutionProviderDispatch>) -> Seq<BuilderSetting> {
    let base = seq![BuilderSetting::ExecutionProviders(providers)];
    if has_direct_ml(providers) {
        base.push(BuilderSetting::MemoryPattern(false)).push(BuilderSetting::ParallelExecution(false))
    } else {
        base
    }
}

/// Whether DirectML is among the providers.
pub fn asks_for_direct_ml(execution_providers: &[ort::ep::ExecutionProviderDispatch]) -> (r: bool)
    ensures
        r == has_direct_ml(execution_providers@),
{
    let mut i: usize = 0;
    while i < execution_providers.len()
        invariant
            i <= execution_providers.len(),
            forall|k: int| 0 <= k < i ==> !is_direct_ml(#[trigger] execution_providers@[k]),
        decreases execution_providers.len() - i,
    {
        if direct_ml(&execution_providers[i]) {
            return true;
        }
        i = i + 1;
    }
    false
}

/// Asks a session builder for the given execution providers. The runtime may
/// refuse a provider or its settings; without providers there is nothing to refuse.
pub fn configured_session_builder(
    builder: ort::session::builder::SessionBuilder,
    execution_providers: &[ort::ep::ExecutionProviderDispatch],
) -> (r: Result<ort::session::builder::SessionBuilder, FaceIdError>)
    ensures
        r matches Ok(b) ==> builder_settings(b) == builder_settings(builder) + required_settings(execution_providers@),
        r matches Err(e) ==> e@ is Ort,
        execution_providers@.len() == 0 ==> r is Ok,
{
    let ghost before = builder_settings(builder);
    let has_directml: bool = asks_for_direct_ml(execution_providers);
    let builder = match with_execution_providers(builder, execution_providers) {
        Ok(b) => b,
        Err(e) => {
            return Err(FaceIdError::Ort(e));
        },
    };
    if !has_directml {
        assert(builder_settings(builder) =~= before + required_settings(execution_providers@));
        return Ok(builder);
    }
    let builder = match with_memory_pattern(builder, false) {
        Ok(b) => b,
        Err(e) => {
            return Err(FaceIdError::Ort(e));
        },
    };
    match with_parallel_execution(builder, false) {
        Ok(b) => {
            assert(builder_settings(b) =~= before + required_settings(execution_providers@));
            Ok(b)
        },
        Err(e) => Err(FaceIdError::Ort(e)),
    }
}

/// A model is fed through its first input, and is of use if and only if it has an
/// input and an output.
pub proof fn law_usable_models(session: ort::session::Session, no_inputs: Seq<char>, no_outputs: Seq<char>)
    ensures
        ({
            let (names, r) = (session_input_names(session), usable_input(session, no_inputs, no_outputs));
            &&& r is Ok <==> names.len() > 0 && session_output_count(session) > 0
            &&& r matches Ok(name) ==> name == names.first()
            &&& names.len() == 0 ==> r == Err::<Seq<char>, FaceIdErrorView>(FaceIdErrorView::InvalidModel(no_inputs))
            &&& names.len() > 0 && session_output_count(session) == 0 ==> r == Err::<Seq<char>, FaceIdErrorView>(
                FaceIdErrorView::InvalidModel(no_outputs),
            )
        }),
{
}

/// The providers are asked for first and all together. Sequential execution without
/// memory patterns is asked for if and only if DirectML is among them, wherever in
/// the list; nothing else is asked for.
pub proof fn law_settings_for_providers(providers: Seq<ort::ep::ExecutionProviderDispatch>, i: int)
    ensures
        ({
            let settings = required_settings(providers);
            &&& settings.len() >= 1
            &&& settings[0] == BuilderSetting::ExecutionProviders(providers)
            &&& 0 <= i < providers.len() && is_direct_ml(providers[i]) ==> {
                &&& settings.len() == 3
                &&& settings.contains(BuilderSetting::MemoryPattern(false))
                &&& settings.contains(BuilderSetting::ParallelExecution(false))
            }
            &&& (forall|k: int| 0 <= k < providers.len() ==> !is_direct_ml(#[trigger] providers[k])) ==> settings.len() == 1
            &&& !settings.contains(BuilderSetting::MemoryPattern(true))
            &&& !settings.contains(BuilderSetting::ParallelExecution(true))
        }),
{
    let settings = required_settings(providers);
    if 0 <= i < providers.len() && is_direct_ml(providers[i]) {
        assert(has_direct_ml(providers));
        assert(settings[1] == BuilderSetting::MemoryPattern(false));
        assert(settings[2] == BuilderSetting::ParallelExecution(false));
    }
}

} // verus!
