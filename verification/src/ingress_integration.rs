//! What the ingress needs of this layer: the record of an invocation that is
//! to be routed to an entity, and the rule by which the two tasks of the
//! ingress end together.

use vstd::prelude::*;
use vstd::slice::slice_to_vec;
use crate::identifiers::{InvocationId, PartitionKey, ServiceId, ServiceIdView};

verus! {

/// Why no key could be extracted from a request.
#[derive(Clone, Copy, Debug, PartialEq, Eq, Structural)]
pub enum KeyExtractorError {
    /// The payload ends within a field.
    UnexpectedEndOfBuffer,
    /// The payload does not match the schema of the method.
    UnexpectedValue,
    /// The payload is not a well-formed message.
    Decode,
    /// No extractor is known for the service and the method.
    NotFound,
}

/// Extracts the key of the target entity from a request. An extractor is
/// given from outside. What it may answer to a request is for each extractor
/// to say.
pub trait KeyExtractor {
    /// `found` is an answer of this extractor to the request for the method
    /// `method_name` of the service `service_name` with the payload
    /// `payload`. An extractor that says nothing of itself may answer
    /// anything.
    open spec fn answers(
        &self,
        service_name: Seq<char>,
        method_name: Seq<char>,
        payload: Seq<u8>,
        found: Result<Seq<u8>, KeyExtractorError>,
    ) -> bool {
        true
    }

    /// The key of the entity that the request is for.
    fn extract(&self, service_name: &str, method_name: &str, payload: &[u8]) -> (r: Result<
        Vec<u8>,
        KeyExtractorError,
    >)
        ensures
            self.answers(service_name@, method_name@, payload@, found_view(r)),
    ;
}

/// Why no invocation could be made of a request.
#[derive(Clone, Debug, PartialEq, Eq)]
pub enum ServiceInvocationFactoryError {
    /// The service has no such method, or there is no such service.
    UnknownServiceMethod { service_name: String, method_name: String },
    /// The key of the entity could not be extracted from the payload.
    KeyExtraction(KeyExtractorError),
}

/// A [`ServiceInvocationFactoryError`] as plain values.
pub enum ServiceInvocationFactoryErrorView {
    UnknownServiceMethod { service_name: Seq<char>, method_name: Seq<char> },
    KeyExtraction(KeyExtractorError),
}

impl View for ServiceInvocationFactoryError {
    type V = ServiceInvocationFactoryErrorView;

    open spec fn view(&self) -> ServiceInvocationFactoryErrorView {
        match self {
            ServiceInvocationFactoryError::UnknownServiceMethod { service_name, method_name } =>
                ServiceInvocationFactoryErrorView::UnknownServiceMethod {
                    service_name: service_name@,
                    method_name: method_name@,
                },
            ServiceInvocationFactoryError::KeyExtraction(error) =>
                ServiceInvocationFactoryErrorView::KeyExtraction(*error),
        }
    }
}

impl ServiceInvocationFactoryError {
    /// The error for a method that is not known.
    pub fn unknown_service_method(service_name: &str, method_name: &str) -> (error: Self)
        ensures
            error@ == (ServiceInvocationFactoryErrorView::UnknownServiceMethod {
                service_name: service_name@,
                method_name: method_name@,
            }),
    {
        ServiceInvocationFactoryError::UnknownServiceMethod {
            service_name: service_name.to_owned(),
            method_name: method_name.to_owned(),
        }
    }

    /// The error for a key that could not be extracted.
    pub fn key_extraction_error(cause: KeyExtractorError) -> (error: Self)
        ensures
            error@ == ServiceInvocationFactoryErrorView::KeyExtraction(cause),
    {
        ServiceInvocationFactoryError::KeyExtraction(cause)
    }
}

/// What the factory makes of what the extractor found: the key, or the
/// error that the caller is told. An extractor that is not found means that
/// the method is not known; every other failure is passed on.
pub open spec fn extracted_key(
    service_name: Seq<char>,
    method_name: Seq<char>,
    found: Result<Seq<u8>, KeyExtractorError>,
) -> Result<Seq<u8>, ServiceInvocationFactoryErrorView> {
    match found {
        Ok(key) => Ok(key),
        Err(KeyExtractorError::NotFound) => Err(
            ServiceInvocationFactoryErrorView::UnknownServiceMethod { service_name, method_name },
        ),
        Err(error) => Err(ServiceInvocationFactoryErrorView::KeyExtraction(error)),
    }
}

/// The key that an extractor found, or the error that stands for its failure.
pub fn key_of_extraction(
    service_name: &str,
    method_name: &str,
    found: Result<Vec<u8>, KeyExtractorError>,
) -> (r: Result<Vec<u8>, ServiceInvocationFactoryError>)
    ensures
        key_result_view(r) == extracted_key(service_name@, method_name@, found_view(found)),
{
    match found {
        Ok(key) => Ok(key),
        Err(KeyExtractorError::NotFound) => Err(
            ServiceInvocationFactoryError::unknown_service_method(service_name, method_name),
        ),
        Err(error) => Err(ServiceInvocationFactoryError::key_extraction_error(error)),
    }
}

/// The identity of one invocation of an entity.
#[derive(Clone, Debug, PartialEq, Eq)]
pub struct ServiceInvocationId {
    pub service_id: ServiceId,
    pub invocation_id: InvocationId,
}

impl ServiceInvocationId {
    /// The identity of the invocation `invocation_id` of the entity `service_id`.
    pub fn new(service_id: ServiceId, invocation_id: InvocationId) -> (id: Self)
        ensures
            id.service_id == service_id,
            id.invocation_id == invocation_id,
    {
        ServiceInvocationId { service_id, invocation_id }
    }
}

/// A request that has been routed: whom it is for, what it asks, where the
/// response goes, and the trace it belongs to. The last two are passed
/// through as they were given.
#[derive(Debug)]
pub struct ServiceInvocation<Sink, Span> {
    pub id: ServiceInvocationId,
    pub method_name: String,
    pub response_sink: Sink,
    pub argument: Vec<u8>,
    pub span_relation: Span,
}

/// Makes invocations of requests, with the help of a key extractor.
#[derive(Debug, Clone)]
pub struct DefaultServiceInvocationFactory<K> {
    key_extractor: K,
}

impl<K: KeyExtractor> DefaultServiceInvocationFactory<K> {
    /// The extractor that the factory asks.
    pub closed spec fn extractor(&self) -> K {
        self.key_extractor
    }

    /// A factory that extracts keys with `key_extractor`.
    pub fn new(key_extractor: K) -> (factory: Self)
        ensures
            factory.extractor() == key_extractor,
    {
        DefaultServiceInvocationFactory { key_extractor }
    }

    /// The key of the entity that a request is for: what the extractor
    /// answers to the service, the method and the payload of the request, as
    /// [`key_of_extraction`] reports it.
    pub fn extract_key(&self, service_name: &str, method_name: &str, request_payload: &[u8]) -> (r:
        Result<Vec<u8>, ServiceInvocationFactoryError>)
        ensures
            exists|found: Result<Seq<u8>, KeyExtractorError>|
                self.extractor().answers(service_name@, method_name@, request_payload@, found)
                    && key_result_view(r) == #[trigger] extracted_key(
                    service_name@,
                    method_name@,
                    found,
                ),
    {
        let found = self.key_extractor.extract(service_name, method_name, request_payload);
        let ghost outcome = found_view(found);
        let r = key_of_extraction(service_name, method_name, found);
        proof {
            assert(self.extractor().answers(
                service_name@,
                method_name@,
                request_payload@,
                outcome,
            ));
            assert(key_result_view(r) == extracted_key(service_name@, method_name@, outcome));
        }
        r
    }

    /// The invocation that a request stands for: what [`invocation_of`]
    /// makes of the request and of what the extractor answers to its
    /// service, its method and its payload.
    pub fn create<Sink, Span, P>(
        &self,
        service_name: &str,
        method_name: &str,
        request_payload: Vec<u8>,
        response_sink: Sink,
        span_relation: Span,
        invocation_uuid: u128,
        partitioner: P,
    ) -> (r: Result<ServiceInvocation<Sink, Span>, ServiceInvocationFactoryError>) where
        P: FnOnce(&[u8]) -> PartitionKey,

        requires
            forall|key: &[u8]| partitioner.requires((key,)),
        ensures
            match r {
                Ok(invocation) => {
                    &&& invocation.id.service_id@.service_name == service_name@
                    &&& exists|key: &[u8]|
                        key@ == invocation.id.service_id@.key && #[trigger] partitioner.ensures(
                            (key,),
                            invocation.id.service_id@.partition_key,
                        )
                    &&& invocation.id.invocation_id == (InvocationId {
                        partition_key: invocation.id.service_id@.partition_key,
                        invocation_uuid,
                    })
                    &&& invocation.method_name@ == method_name@
                    &&& invocation.argument@ == request_payload@
                    &&& invocation.response_sink == response_sink
                    &&& invocation.span_relation == span_relation
                },
                Err(error) => exists|cause: KeyExtractorError|
                    Err::<Seq<u8>, _>(error@) == #[trigger] extracted_key(
                        service_name@,
                        method_name@,
                        Err(cause),
                    ),
            },
            exists|found: Result<Seq<u8>, KeyExtractorError>|
                {
                    &&& #[trigger] self.extractor().answers(
                        service_name@,
                        method_name@,
                        request_payload@,
                        found,
                    )
                    &&& found is Ok <==> r is Ok
                    &&& found matches Ok(key) ==> r->Ok_0.id.service_id@.key == key
                    &&& found matches Err(cause) ==> Err::<Seq<u8>, _>(r->Err_0@) == extracted_key(
                        service_name@,
                        method_name@,
                        Err(cause),
                    )
                },
    {
        let found = self.key_extractor.extract(
            service_name,
            method_name,
            request_payload.as_slice(),
        );
        proof {
            assert(self.extractor().answers(
                service_name@,
                method_name@,
                request_payload@,
                found_view(found),
            ));
        }
        invocation_of(
            service_name,
            method_name,
            found,
            request_payload,
            response_sink,
            span_relation,
            invocation_uuid,
            partitioner,
        )
    }
}

/// The invocation that a request stands for, given what the extractor found
/// in it. Where a key was found, the target is the entity of the service
/// with that key; the partition key of the target is what `partitioner`
/// derives from the key; `invocation_uuid` is the number that was drawn for
/// this invocation; the method, the payload, the sink of the response and
/// the trace go into the record as they came. Where no key was found, there
/// is no invocation, and the error is what [`key_of_extraction`] reports.
pub fn invocation_of<Sink, Span, P>(
    service_name: &str,
    method_name: &str,
    found: Result<Vec<u8>, KeyExtractorError>,
    request_payload: Vec<u8>,
    response_sink: Sink,
    span_relation: Span,
    invocation_uuid: u128,
    partitioner: P,
) -> (r: Result<ServiceInvocation<Sink, Span>, ServiceInvocationFactoryError>) where
    P: FnOnce(&[u8]) -> PartitionKey,

    requires
        forall|key: &[u8]| partitioner.requires((key,)),
    ensures
        match found {
            Ok(found_key) => {
                &&& r matches Ok(invocation)
                &&& invocation.id.service_id@.key == found_key@
                &&& invocation.id.service_id@.service_name == service_name@
                &&& exists|key: &[u8]|
                    key@ == found_key@ && #[trigger] partitioner.ensures(
                        (key,),
                        invocation.id.service_id@.partition_key,
                    )
                &&& invocation.id.invocation_id == (InvocationId {
                    partition_key: invocation.id.service_id@.partition_key,
                    invocation_uuid,
                })
                &&& invocation.method_name@ == method_name@
                &&& invocation.argument@ == request_payload@
                &&& invocation.response_sink == response_sink
                &&& invocation.span_relation == span_relation
            },
            Err(cause) => {
                &&& r matches Err(error)
                &&& Err::<Seq<u8>, _>(error@) == extracted_key(
                    service_name@,
                    method_name@,
                    Err(cause),
                )
            },
        },
{
    let key = match key_of_extraction(service_name, method_name, found) {
        Err(error) => {
            return Err(error);
        },
        Ok(key) => key,
    };
    let partition_key = partitioner(key.as_slice());
    let invocation_id = InvocationId::new(partition_key, invocation_uuid);
    let service_id = ServiceId::with_partition_key(partition_key, service_name.to_owned(), key);
    let id = ServiceInvocationId::new(service_id, invocation_id);
    Ok(
        ServiceInvocation {
            id,
            method_name: method_name.to_owned(),
            response_sink,
            argument: request_payload,
            span_relation,
        },
    )
}

/// What an extractor found, as plain values.
pub open spec fn found_view(found: Result<Vec<u8>, KeyExtractorError>) -> Result<
    Seq<u8>,
    KeyExtractorError,
> {
    match found {
        Ok(key) => Ok(key@),
        Err(error) => Err(error),
    }
}

/// The outcome of an extraction as plain values.
pub open spec fn key_result_view(r: Result<Vec<u8>, ServiceInvocationFactoryError>) -> Result<
    Seq<u8>,
    ServiceInvocationFactoryErrorView,
> {
    match r {
        Ok(key) => Ok(key@),
        Err(error) => Err(error@),
    }
}

/// One of the two tasks of the ingress.
#[derive(Clone, Copy, Debug, PartialEq, Eq, Structural)]
pub enum IngressTask {
    /// The loop that hands responses back to the clients.
    ResponseDispatcherLoop,
    /// The server that takes the requests of the clients.
    ExternalClientIngress,
}

impl IngressTask {
    /// The other of the two tasks.
    pub open spec fn counterpart(self) -> IngressTask {
        match self {
            IngressTask::ResponseDispatcherLoop => IngressTask::ExternalClientIngress,
            IngressTask::ExternalClientIngress => IngressTask::ResponseDispatcherLoop,
        }
    }

    /// The other of the two tasks.
    pub fn other(self) -> (task: IngressTask)
        ensures
            task == self.counterpart(),
    {
        match self {
            IngressTask::ResponseDispatcherLoop => IngressTask::ExternalClientIngress,
            IngressTask::ExternalClientIngress => IngressTask::ResponseDispatcherLoop,
        }
    }
}

/// How far the run of the two tasks has come.
#[derive(Clone, Copy, Debug, PartialEq, Eq, Structural)]
pub enum RunState {
    /// Both tasks are being driven.
    Running,
    /// The given task has ended, and with it the run.
    Finished(IngressTask),
}

impl RunState {
    /// What follows from the end of `task`, be it of itself or because the
    /// shutdown signal that both tasks share has fired: the state after it,
    /// and the task that is to be dropped. The first task to end ends the
    /// run, and the other one is dropped; once the run is over nothing
    /// changes and nothing is dropped.
    pub fn task_finished(self, task: IngressTask) -> (next: (RunState, Option<IngressTask>))
        ensures
            self == RunState::Running ==> next == (
                RunState::Finished(task),
                Some(task.counterpart()),
            ),
            self != RunState::Running ==> next == (self, None::<IngressTask>),
    {
        match self {
            RunState::Running => (RunState::Finished(task), Some(task.other())),
            RunState::Finished(_) => (self, None),
        }
    }
}

/// The two tasks of the ingress, which run until the first of them ends.
#[derive(Debug)]
pub struct ExternalClientIngressRunner<Ingress, Dispatcher> {
    response_dispatcher_loop: Dispatcher,
    external_client_ingress: Ingress,
}

impl<Ingress, Dispatcher> ExternalClientIngressRunner<Ingress, Dispatcher> {
    /// The two tasks, as they were given.
    pub closed spec fn tasks(&self) -> (Dispatcher, Ingress) {
        (self.response_dispatcher_loop, self.external_client_ingress)
    }

    /// A runner of the two tasks.
    pub fn new(external_client_ingress: Ingress, response_dispatcher_loop: Dispatcher) -> (runner:
        Self)
        ensures
            runner.tasks() == (response_dispatcher_loop, external_client_ingress),
    {
        ExternalClientIngressRunner { external_client_ingress, response_dispatcher_loop }
    }

    /// The two tasks, for the caller to drive, and the state in which their
    /// run begins: the response dispatcher loop, the ingress server, and
    /// `Running`.
    pub fn into_tasks(self) -> (parts: (Dispatcher, Ingress, RunState))
        ensures
            (parts.0, parts.1) == self.tasks(),
            parts.2 == RunState::Running,
    {
        (self.response_dispatcher_loop, self.external_client_ingress, RunState::Running)
    }
}

} // verus!
