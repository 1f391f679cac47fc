use foundation::agent_types::{AgentMetrics, AgentProfile, AgentState, TaskDescriptor, TaskPriority, TaskStatus};
use foundation::blueprint_types::{BlueprintDef, BlueprintInstance, BlueprintStatus, BlueprintStep, ParameterDef,
    ParameterType};
use foundation::errors::{FoundationError, FoundationResult};
use foundation::id::{DeterministicId, GraphDomain, NodeDomain, TaskDomain};
use foundation::ordered_map::OrderedMap;
use foundation::primitives::{FloatBits, SafeInteger};
use foundation::time::LogicalTimestamp;
use foundation::traits::Validatable;
use foundation::transport::{MessageId, MessageQueue, MessageRouter, Priority, ResponseStatus, SystemAddress,
    TransportMessage};
use foundation::types::{EdgeData, GraphMetadata, NodeData, OperationResult, PropertyMap, PropertyValue, StatusCode,
    VersionInfo};

const ONE: FloatBits = FloatBits(0x3FF0_0000_0000_0000);

fn json(text: &str) -> serde_json::Value {
    serde_json::from_str(text).unwrap()
}

type Handler = Box<dyn Fn(&TransportMessage) -> FoundationResult<TransportMessage>>;

// ---------------------------------------------------------------------------
// types
// ---------------------------------------------------------------------------

#[test]
fn property_map_basic() {
    let mut pm = PropertyMap::new();
    pm.set("name", PropertyValue::Text("test".into()));
    pm.set("count", PropertyValue::Integer(SafeInteger::new(42)));
    assert_eq!(pm.len(), 2);
    assert!(pm.contains_key("name"));
}

#[test]
fn property_map_keys_in_order() {
    let mut pm = PropertyMap::new();
    pm.set("zeta", PropertyValue::Bool(true));
    pm.set("alpha", PropertyValue::Bool(false));
    assert_eq!(pm.keys(), vec!["alpha".to_string(), "zeta".to_string()]);
    assert!(pm.remove("alpha").is_some());
    assert!(pm.get("alpha").is_none());
}

#[test]
fn node_data_creation() {
    let node = NodeData::new("person", PropertyMap::new(), "{}", LogicalTimestamp::zero());
    assert_eq!(node.label, "person");
    assert!(node.validate().is_ok());
}

#[test]
fn node_data_empty_label_invalid() {
    let node = NodeData::new("", PropertyMap::new(), "{}", LogicalTimestamp::zero());
    assert!(node.validate().is_err());
}

#[test]
fn edge_data_creation() {
    let src = DeterministicId::from_content("a");
    let tgt = DeterministicId::from_content("b");
    let edge = EdgeData::new(src, tgt, "knows", ONE, PropertyMap::new(), LogicalTimestamp::zero());
    assert_eq!(edge.relation, "knows");
    assert!(edge.validate().is_ok());
}

#[test]
fn edge_self_loop_invalid() {
    let id: DeterministicId<NodeDomain> = DeterministicId::from_content("a");
    let edge = EdgeData::new(id.clone(), id, "self", ONE, PropertyMap::new(), LogicalTimestamp::zero());
    assert!(edge.validate().is_err());
}

#[test]
fn graph_metadata_identified_by_name() {
    let g = GraphMetadata::new("g1", "desc", LogicalTimestamp::new(3));
    let same: DeterministicId<GraphDomain> = DeterministicId::from_content("g1");
    assert_eq!(g.id, same);
    assert_eq!(g.node_count, 0);
}

#[test]
fn version_info_bump() {
    let v = VersionInfo::new(1, 2, 3);
    assert_eq!(v.bump_patch(), VersionInfo::new(1, 2, 4));
    assert_eq!(v.bump_minor(), VersionInfo::new(1, 3, 0));
    assert_eq!(v.bump_major(), VersionInfo::new(2, 0, 0));
}

#[test]
fn version_info_display() {
    assert_eq!(VersionInfo::new(10, 0, 7).display_string(), "10.0.7");
}

#[test]
fn operation_result_ok() {
    let result = OperationResult::ok(42, LogicalTimestamp::zero());
    assert!(result.is_success());
    assert_eq!(result.data, Some(42));
}

#[test]
fn operation_result_error() {
    let result: OperationResult<i32> =
        OperationResult::error(StatusCode::NotFound, "not found", LogicalTimestamp::zero());
    assert!(!result.is_success());
}

#[test]
fn status_code_success_kinds() {
    let created: OperationResult<i32> = OperationResult::error(StatusCode::Created, "made", LogicalTimestamp::zero());
    assert!(created.is_success());
    assert_eq!(StatusCode::ValidationError.display_string(), "VALIDATION_ERROR");
}

// ---------------------------------------------------------------------------
// transport
// ---------------------------------------------------------------------------

#[test]
fn message_creation() {
    let msg = TransportMessage::request(
        MessageId::new("msg-1"),
        SystemAddress::AgentSystem,
        SystemAddress::GraphSystem,
        "create_node",
        json("{\"label\": \"test\"}"),
        LogicalTimestamp::new(1),
    );
    assert_eq!(msg.source, SystemAddress::AgentSystem);
    assert_eq!(msg.destination, SystemAddress::GraphSystem);
}

#[test]
fn message_response() {
    let req = TransportMessage::request(
        MessageId::new("msg-1"),
        SystemAddress::AgentSystem,
        SystemAddress::GraphSystem,
        "query",
        json("{}"),
        LogicalTimestamp::new(1),
    );
    let resp = TransportMessage::response(
        MessageId::new("msg-2"),
        &req,
        ResponseStatus::Success,
        json("{\"result\": \"ok\"}"),
        LogicalTimestamp::new(2),
    );
    assert_eq!(resp.destination, SystemAddress::AgentSystem);
    assert_eq!(resp.correlation_id, Some(MessageId::new("msg-1")));
}

#[test]
fn router_routes_to_handler() {
    let mut router: MessageRouter<Handler> = MessageRouter::new();
    router.register(
        SystemAddress::GraphSystem,
        Some("create_node".to_string()),
        "create_handler",
        Box::new(|msg: &TransportMessage| {
            Ok(TransportMessage::response(
                MessageId::new("resp-1"),
                msg,
                ResponseStatus::Success,
                json("{\"created\": true}"),
                LogicalTimestamp::new(2),
            ))
        }),
    );
    let msg = TransportMessage::request(
        MessageId::new("msg-1"),
        SystemAddress::AgentSystem,
        SystemAddress::GraphSystem,
        "create_node",
        json("{}"),
        LogicalTimestamp::new(1),
    );
    let resp = router.route(&msg).unwrap();
    assert_eq!(resp.destination, SystemAddress::AgentSystem);
}

#[test]
fn router_undelivered() {
    let mut router: MessageRouter<Handler> = MessageRouter::new();
    let msg = TransportMessage::request(
        MessageId::new("msg-1"),
        SystemAddress::AgentSystem,
        SystemAddress::GraphSystem,
        "unknown_op",
        json("{}"),
        LogicalTimestamp::new(1),
    );
    assert!(router.route(&msg).is_err());
    assert_eq!(router.undelivered().len(), 1);
}

#[test]
fn router_error_text_and_pattern_mismatch() {
    let mut router: MessageRouter<Handler> = MessageRouter::new();
    router.register(SystemAddress::GraphSystem, Some("other".to_string()), "h",
        Box::new(|msg: &TransportMessage| Ok(TransportMessage::event(MessageId::new("x"), msg.destination.clone(),
            msg.source.clone(), "ack", json("null"), LogicalTimestamp::new(5)))));
    let msg = TransportMessage::request(MessageId::new("m9"), SystemAddress::TaskSystem, SystemAddress::GraphSystem,
        "create", json("{}"), LogicalTimestamp::new(1));
    match router.route(&msg) {
        Err(FoundationError::TransportError(t)) => assert_eq!(t, "no route for message m9 to graph"),
        _ => panic!("expected a transport error"),
    }
    assert_eq!(router.undelivered()[0].id, MessageId::new("m9"));
    router.clear_undelivered();
    assert_eq!(router.undelivered().len(), 0);
}

#[test]
fn message_queue_basic() {
    let mut q = MessageQueue::new();
    assert!(q.is_empty());
    q.enqueue(TransportMessage::event(
        MessageId::new("e1"),
        SystemAddress::AgentSystem,
        SystemAddress::GraphSystem,
        "tick",
        json("{}"),
        LogicalTimestamp::new(1),
    ));
    assert_eq!(q.len(), 1);
    let msg = q.dequeue().unwrap();
    assert_eq!(msg.id, MessageId::new("e1"));
    assert!(q.is_empty());
}

#[test]
fn message_queue_priority_drain() {
    let mut q = MessageQueue::new();
    q.enqueue(
        TransportMessage::event(MessageId::new("e1"), SystemAddress::AgentSystem, SystemAddress::GraphSystem, "low",
            json("{}"), LogicalTimestamp::new(1))
        .with_priority(Priority::Low),
    );
    q.enqueue(
        TransportMessage::event(MessageId::new("e2"), SystemAddress::AgentSystem, SystemAddress::GraphSystem,
            "critical", json("{}"), LogicalTimestamp::new(2))
        .with_priority(Priority::Critical),
    );
    let drained = q.drain_by_priority();
    assert_eq!(drained[0].id, MessageId::new("e2"));
    assert_eq!(drained[1].id, MessageId::new("e1"));
}

#[test]
fn message_queue_drain_is_stable() {
    let mut q = MessageQueue::new();
    for (name, p) in [("a", Priority::Normal), ("b", Priority::High), ("c", Priority::Normal), ("d", Priority::High)] {
        q.enqueue(TransportMessage::event(MessageId::new(name), SystemAddress::AgentSystem, SystemAddress::TaskSystem,
            "e", json("1"), LogicalTimestamp::new(1)).with_priority(p));
    }
    let ids: Vec<String> = q.drain_by_priority().iter().map(|m| m.id.as_str().to_string()).collect();
    assert_eq!(ids, vec!["b", "d", "a", "c"]);
    assert!(q.is_empty());
}

#[test]
fn message_id_generate_is_one_to_one() {
    let ids = [
        MessageId::generate(1, 2),
        MessageId::generate(2, 1),
        MessageId::generate(1, 0x1_0000_0002),
        MessageId::generate(0x10, 2),
    ];
    for i in 0..ids.len() {
        for j in 0..ids.len() {
            assert_eq!(i == j, ids[i].as_str() == ids[j].as_str());
        }
    }
    assert_eq!(MessageId::generate(1, 0x1_0000_0002).as_str(), "msg-0000000000000001-100000002");
}

#[test]
fn message_id_generate_and_headers() {
    assert_eq!(MessageId::generate(255, 16).as_str(), "msg-00000000000000ff-00000010");
    let m = TransportMessage::event(MessageId::new("e"), SystemAddress::Custom("x".into()), SystemAddress::TaskSystem,
        "t", json("{}"), LogicalTimestamp::new(1)).with_header("k", "v");
    assert_eq!(m.headers.get("k"), Some(&"v".to_string()));
    assert_eq!(m.display_string(), "Message(e: custom:x -> task)");
}

// ---------------------------------------------------------------------------
// agents
// ---------------------------------------------------------------------------

#[test]
fn agent_profile_creation() {
    let agent = AgentProfile::new("agent-1", "planner", LogicalTimestamp::zero());
    assert_eq!(agent.name, "agent-1");
    assert_eq!(agent.state, AgentState::Idle);
}

#[test]
fn agent_state_transitions() {
    let mut agent = AgentProfile::new("agent-1", "worker", LogicalTimestamp::zero());
    assert!(agent.transition_to(AgentState::Planning, LogicalTimestamp::new(1)).is_ok());
    assert!(agent.transition_to(AgentState::Executing, LogicalTimestamp::new(2)).is_ok());
    assert!(agent.transition_to(AgentState::Completed, LogicalTimestamp::new(3)).is_ok());
}

#[test]
fn agent_invalid_transition() {
    let mut agent = AgentProfile::new("agent-1", "worker", LogicalTimestamp::zero());
    assert!(agent.transition_to(AgentState::Completed, LogicalTimestamp::new(1)).is_err());
}

#[test]
fn agent_transition_error_text_and_suspension() {
    let mut agent = AgentProfile::new("a", "r", LogicalTimestamp::zero());
    match agent.transition_to(AgentState::Waiting, LogicalTimestamp::new(1)) {
        Err(FoundationError::ValidationFailed(m)) => assert_eq!(m, "invalid state transition: IDLE -> WAITING"),
        _ => panic!("expected a validation error"),
    }
    assert_eq!(agent.state, AgentState::Idle);
    assert!(agent.transition_to(AgentState::Suspended, LogicalTimestamp::new(2)).is_ok());
    assert!(agent.transition_to(AgentState::Idle, LogicalTimestamp::new(3)).is_ok());
    assert_eq!(agent.updated_at, LogicalTimestamp::new(3));
}

#[test]
fn task_descriptor_creation() {
    let task = TaskDescriptor::new("task-1", "do stuff", TaskPriority::High, LogicalTimestamp::zero());
    assert_eq!(task.status, TaskStatus::Pending);
    assert_eq!(task.priority, TaskPriority::High);
}

#[test]
fn task_blocked_check() {
    let task = {
        let mut t = TaskDescriptor::new("t2", "after t1", TaskPriority::Medium, LogicalTimestamp::zero());
        t.depends_on.push(DeterministicId::from_content("t1"));
        t
    };
    let completed: Vec<DeterministicId<TaskDomain>> = vec![];
    assert!(task.is_blocked(&completed));
    let completed = vec![DeterministicId::from_content("t1")];
    assert!(!task.is_blocked(&completed));
}

#[test]
fn task_id_uses_name_and_time() {
    let task = TaskDescriptor::new("t", "d", TaskPriority::Low, LogicalTimestamp::new(12));
    let expected: DeterministicId<TaskDomain> = DeterministicId::from_content("t:12");
    assert_eq!(task.id, expected);
    let m = AgentMetrics::new(DeterministicId::from_content("a"));
    assert_eq!(m.tasks_completed.value(), 0);
    assert_eq!(f64::from_bits(m.success_rate.bits()), 100.0);
}

#[test]
fn agent_capabilities() {
    let mut agent = AgentProfile::new("a1", "worker", LogicalTimestamp::zero());
    agent.add_capability("code_review");
    agent.add_capability("code_review");
    assert_eq!(agent.capabilities.len(), 1);
    assert!(agent.has_capability("code_review"));
}

// ---------------------------------------------------------------------------
// blueprints
// ---------------------------------------------------------------------------

#[test]
fn blueprint_creation() {
    let bp = BlueprintDef::new("test-bp", "A test blueprint", LogicalTimestamp::zero());
    assert_eq!(bp.name, "test-bp");
    assert_eq!(bp.status, BlueprintStatus::Draft);
}

#[test]
fn blueprint_lifecycle() {
    let mut bp = BlueprintDef::new("bp1", "desc", LogicalTimestamp::zero());
    assert!(bp.activate(LogicalTimestamp::new(1)).is_ok());
    assert_eq!(bp.status, BlueprintStatus::Active);
    assert!(bp.deprecate(LogicalTimestamp::new(2)).is_ok());
    assert_eq!(bp.status, BlueprintStatus::Deprecated);
}

#[test]
fn blueprint_invalid_activate() {
    let mut bp = BlueprintDef::new("bp1", "desc", LogicalTimestamp::zero());
    bp.activate(LogicalTimestamp::new(1)).unwrap();
    assert!(bp.activate(LogicalTimestamp::new(2)).is_err());
}

#[test]
fn blueprint_step_validation() {
    let mut bp = BlueprintDef::new("bp", "d", LogicalTimestamp::zero());
    bp.add_step(BlueprintStep::new("s1", "op1"));
    bp.add_step(BlueprintStep::new("s2", "op2").with_dependency("s1"));
    assert!(bp.validate_steps().is_ok());
    bp.add_step(BlueprintStep::new("s3", "op3").with_dependency("nonexistent"));
    assert!(bp.validate_steps().is_err());
}

#[test]
fn blueprint_step_error_names_first_dangling() {
    let mut bp = BlueprintDef::new("bp", "d", LogicalTimestamp::zero());
    bp.add_step(BlueprintStep::new("s1", "op").with_dependency("x").with_dependency("y"));
    match bp.validate_steps() {
        Err(FoundationError::ValidationFailed(m)) => assert_eq!(m, "step 's1' depends on unknown step 'x'"),
        _ => panic!("expected a validation error"),
    }
    assert!(bp.deprecate(LogicalTimestamp::new(1)).is_err());
}

#[test]
fn blueprint_duplicate_parameters() {
    let mut bp = BlueprintDef::new("bp", "d", LogicalTimestamp::zero());
    bp.add_parameter(ParameterDef::new("a", ParameterType::String, true));
    bp.add_parameter(ParameterDef::new("b", ParameterType::Integer, false));
    assert!(bp.validate_parameters().is_ok());
    bp.add_parameter(ParameterDef::new("a", ParameterType::Boolean, false).with_description("again"));
    assert!(bp.validate_parameters().is_err());
}

#[test]
fn blueprint_instance() {
    let mut bp = BlueprintDef::new("bp", "d", LogicalTimestamp::zero());
    bp.add_parameter(ParameterDef::new("name", ParameterType::String, true));
    bp.add_parameter(ParameterDef::new("count", ParameterType::Integer, false).with_default("10"));
    let mut params = OrderedMap::new();
    params.insert("name".to_string(), "test".to_string());
    let instance = BlueprintInstance::new(&bp, params, LogicalTimestamp::new(1)).unwrap();
    assert_eq!(instance.get_param("name"), Some(&"test".to_string()));
    assert_eq!(instance.instance_id, format!("{}-1", bp.id.short()));
}

#[test]
fn blueprint_instance_missing_required() {
    let mut bp = BlueprintDef::new("bp", "d", LogicalTimestamp::zero());
    bp.add_parameter(ParameterDef::new("name", ParameterType::String, true));
    let params = OrderedMap::new();
    match BlueprintInstance::new(&bp, params, LogicalTimestamp::new(1)) {
        Err(FoundationError::ValidationFailed(m)) => assert_eq!(m, "required parameter 'name' not provided"),
        _ => panic!("expected a validation error"),
    }
}
