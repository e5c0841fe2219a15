use partition_store::identifiers::{InvocationId, ServiceId};
use partition_store::ingress_integration::{invocation_of, key_of_extraction, DefaultServiceInvocationFactory,
    ExternalClientIngressRunner, IngressTask, KeyExtractor, KeyExtractorError, RunState,
    ServiceInvocationFactoryError, ServiceInvocationId};

#[derive(Clone)]
struct FirstBytes;

impl KeyExtractor for FirstBytes {
    fn extract(
        &self,
        service_name: &str,
        method_name: &str,
        payload: &[u8],
    ) -> Result<Vec<u8>, KeyExtractorError> {
        if service_name != "greeter" || method_name != "greet" {
            Err(KeyExtractorError::NotFound)
        } else if payload.len() < 2 {
            Err(KeyExtractorError::UnexpectedEndOfBuffer)
        } else {
            Ok(payload[..2].to_vec())
        }
    }
}

fn partition_of(key: &[u8]) -> u64 {
    key.iter().map(|b| *b as u64).sum()
}

#[test]
fn factory_makes_the_invocation_of_a_request() {
    let factory = DefaultServiceInvocationFactory::new(FirstBytes);
    let invocation = factory
        .create("greeter", "greet", vec![3, 4, 5], "sink", 17u8, 99, partition_of)
        .unwrap();
    assert_eq!(
        invocation.id,
        ServiceInvocationId::new(
            ServiceId::with_partition_key(7, "greeter".to_string(), vec![3, 4]),
            InvocationId::new(7, 99)
        )
    );
    assert_eq!(invocation.method_name, "greet");
    assert_eq!(invocation.argument, vec![3, 4, 5]);
    assert_eq!(invocation.response_sink, "sink");
    assert_eq!(invocation.span_relation, 17u8);
}

#[test]
fn factory_reports_an_unknown_method() {
    let factory = DefaultServiceInvocationFactory::new(FirstBytes);
    let error = factory
        .create("greeter", "shout", vec![3, 4, 5], (), (), 1, partition_of)
        .unwrap_err();
    assert_eq!(
        error,
        ServiceInvocationFactoryError::UnknownServiceMethod {
            service_name: "greeter".to_string(),
            method_name: "shout".to_string(),
        }
    );
    assert_eq!(
        factory.extract_key("other", "greet", &[1, 2]),
        Err(ServiceInvocationFactoryError::unknown_service_method("other", "greet"))
    );
}

#[test]
fn factory_passes_on_a_failed_extraction() {
    let factory = DefaultServiceInvocationFactory::new(FirstBytes);
    let error = factory.create("greeter", "greet", vec![3], (), (), 1, partition_of).unwrap_err();
    assert_eq!(
        error,
        ServiceInvocationFactoryError::KeyExtraction(KeyExtractorError::UnexpectedEndOfBuffer)
    );
    assert_eq!(factory.extract_key("greeter", "greet", &[1, 2, 3]), Ok(vec![1, 2]));
}

#[test]
fn extraction_outcomes_are_mapped_one_by_one() {
    assert_eq!(key_of_extraction("s", "m", Ok(vec![1])), Ok(vec![1]));
    assert_eq!(
        key_of_extraction("s", "m", Err(KeyExtractorError::NotFound)),
        Err(ServiceInvocationFactoryError::unknown_service_method("s", "m"))
    );
    for cause in [
        KeyExtractorError::UnexpectedEndOfBuffer,
        KeyExtractorError::UnexpectedValue,
        KeyExtractorError::Decode,
    ] {
        assert_eq!(
            key_of_extraction("s", "m", Err(cause)),
            Err(ServiceInvocationFactoryError::key_extraction_error(cause))
        );
    }
}

#[test]
fn invocation_is_made_of_the_key_that_was_found() {
    let invocation =
        invocation_of("svc", "run", Ok(vec![1, 2]), vec![9, 9, 9], "sink", "span", 5, partition_of)
            .unwrap();
    assert_eq!(
        invocation.id,
        ServiceInvocationId::new(
            ServiceId::with_partition_key(3, "svc".to_string(), vec![1, 2]),
            InvocationId::new(3, 5)
        )
    );
    assert_eq!(invocation.method_name, "run");
    assert_eq!(invocation.argument, vec![9, 9, 9]);
    assert_eq!(invocation.response_sink, "sink");
    assert_eq!(invocation.span_relation, "span");
    let empty = invocation_of("svc", "run", Ok(vec![]), vec![], (), (), 0, partition_of).unwrap();
    assert_eq!(empty.id.service_id, ServiceId::with_partition_key(0, "svc".to_string(), vec![]));
}

#[test]
fn no_invocation_is_made_where_no_key_was_found() {
    let error = invocation_of(
        "svc",
        "run",
        Err(KeyExtractorError::NotFound),
        vec![1],
        (),
        (),
        5,
        partition_of,
    )
    .unwrap_err();
    assert_eq!(error, ServiceInvocationFactoryError::unknown_service_method("svc", "run"));
    for cause in [
        KeyExtractorError::UnexpectedEndOfBuffer,
        KeyExtractorError::UnexpectedValue,
        KeyExtractorError::Decode,
    ] {
        let error =
            invocation_of("svc", "run", Err(cause), vec![1], (), (), 5, partition_of).unwrap_err();
        assert_eq!(error, ServiceInvocationFactoryError::key_extraction_error(cause));
    }
}

#[test]
fn first_task_to_end_ends_the_run() {
    let runner = ExternalClientIngressRunner::new("ingress", "dispatcher");
    let (dispatcher, ingress, state) = runner.into_tasks();
    assert_eq!((dispatcher, ingress), ("dispatcher", "ingress"));
    assert_eq!(state, RunState::Running);
    let (state, dropped) = state.task_finished(IngressTask::ExternalClientIngress);
    assert_eq!(state, RunState::Finished(IngressTask::ExternalClientIngress));
    assert_eq!(dropped, Some(IngressTask::ResponseDispatcherLoop));
    let (state, dropped) = state.task_finished(IngressTask::ResponseDispatcherLoop);
    assert_eq!(state, RunState::Finished(IngressTask::ExternalClientIngress));
    assert_eq!(dropped, None);
    let (state, dropped) = RunState::Running.task_finished(IngressTask::ResponseDispatcherLoop);
    assert_eq!(state, RunState::Finished(IngressTask::ResponseDispatcherLoop));
    assert_eq!(dropped, Some(IngressTask::ExternalClientIngress));
    assert_eq!(IngressTask::ResponseDispatcherLoop.other(), IngressTask::ExternalClientIngress);
    assert_eq!(IngressTask::ExternalClientIngress.other(), IngressTask::ResponseDispatcherLoop);
}
