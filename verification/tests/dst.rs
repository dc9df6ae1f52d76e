use aflak_cake::Algorithm;
use aflak_cake::DSTError;
use aflak_cake::IOErr;
use aflak_cake::InputSource;
use aflak_cake::Timed;
use aflak_cake::IOType;
use aflak_cake::IOValue;
use aflak_cake::Input;
use aflak_cake::InputList;
use aflak_cake::NamedAlgorithms;
use aflak_cake::Output;
use aflak_cake::SerialDST;
use aflak_cake::Transformation;
use aflak_cake::TypeContent;
use aflak_cake::DST;

fn get_plus1_transform() -> Transformation {
    Transformation {
        name: "plus1".to_owned(),
        input: vec![(IOType::Integer, None)],
        output: vec![IOType::Integer],
        algorithm: Algorithm::Function,
    }
}

fn get_minus1_transform() -> Transformation {
    Transformation {
        name: "minus1".to_owned(),
        input: vec![(IOType::Integer, None)],
        output: vec![IOType::Integer],
        algorithm: Algorithm::Function,
    }
}

fn get_get1_transform() -> Transformation {
    Transformation {
        name: "get1".to_owned(),
        input: vec![],
        output: vec![IOType::Integer],
        algorithm: Algorithm::Function,
    }
}

fn get_get_image_transform() -> Transformation {
    Transformation {
        name: "get_image".to_owned(),
        input: vec![],
        output: vec![IOType::Image3d],
        algorithm: Algorithm::Function,
    }
}

struct TestAlgos;

impl NamedAlgorithms for TestAlgos {
    fn get_transform(name: &str) -> Option<Transformation> {
        match name {
            "plus1" => Some(get_plus1_transform()),
            "minus1" => Some(get_minus1_transform()),
            "get1" => Some(get_get1_transform()),
            "get_image" => Some(get_get_image_transform()),
            _ => None,
        }
    }

    fn run_algorithm(name: &str, inputs: Vec<IOValue>) -> Vec<Result<IOValue, IOErr>> {
        match name {
            "plus1" => match inputs.get(0) {
                Some(IOValue::Integer(i)) => vec![Ok(IOValue::Integer(i + 1))],
                _ => vec![Err(IOErr::UnexpectedInput("expected an integer".to_owned()))],
            },
            "minus1" => match inputs.get(0) {
                Some(IOValue::Integer(i)) => vec![Ok(IOValue::Integer(i - 1))],
                _ => vec![Err(IOErr::UnexpectedInput("expected an integer".to_owned()))],
            },
            "get1" => vec![Ok(IOValue::Integer(1))],
            "get_image" => vec![Ok(IOValue::Image3d(vec![vec![vec![0, 1], vec![2, 3]]]))],
            _ => vec![Err(IOErr::NotFound(format!("unknown algorithm {}", name)))],
        }
    }
}

#[test]
fn test_make_dst_and_iterate_dependencies() {
    let plus1 = get_plus1_transform();
    let minus1 = get_minus1_transform();
    let get1 = get_get1_transform();

    // We build the dst as follows (all functions are trivial and only
    // have 1 output or 0/1 input):
    // a, get1 -------------------> c, plus1 -> d, plus1 -> OUT1
    // \-> b, minus1 -> OUT2        \-> e, plus1
    let mut dst = DST::new();
    let a = dst.add_transform(&get1);
    let b = dst.add_transform(&minus1);
    let c = dst.add_transform(&plus1);
    let d = dst.add_transform(&plus1);
    let e = dst.add_transform(&plus1);
    let out1 = dst.create_output();
    dst.attach_output(out1, Output::new(d, 0)).unwrap();
    let out2 = dst.create_output();
    dst.attach_output(out2, Output::new(b, 0)).unwrap();
    dst.connect(Output::new(a, 0), Input::new(c, 0)).unwrap();
    dst.connect(Output::new(a, 0), Input::new(b, 0)).unwrap();
    dst.connect(Output::new(c, 0), Input::new(e, 0)).unwrap();
    dst.connect(Output::new(c, 0), Input::new(d, 0)).unwrap();

    assert_eq!("TransformIdx(5)", format!("{:?}", e));
    assert_eq!("OutputId(1)", format!("{:?}", out1));

    let deps = dst.dependencies(&out1).unwrap();
    assert_eq!(deps[0].transform_idx(), a);
    assert_eq!(deps[1].transform_idx(), c);
    assert_eq!(deps[2].transform_idx(), d);
    assert_eq!(deps.len(), 3);

    let deps = dst.dependencies(&out2).unwrap();
    assert_eq!(deps[0].transform_idx(), a);
    assert_eq!(deps[1].transform_idx(), b);
    assert_eq!(deps.len(), 2);

    assert_eq!(dst.compute::<TestAlgos>(&out1).unwrap(), IOValue::Integer(3));
    assert_eq!(dst.compute::<TestAlgos>(&out2).unwrap(), IOValue::Integer(0));

    let _serialized = SerialDST::new(&dst);
}

#[test]
fn test_connect_wrong_types() {
    let plus1 = get_plus1_transform();
    let image = get_get_image_transform();

    // a, image
    // \-> b, plus1 -> OUT1
    let mut dst = DST::new();
    let a = dst.add_transform(&image);
    let b = dst.add_transform(&plus1);
    let out1 = dst.create_output();
    dst.attach_output(out1, Output::new(b, 0)).unwrap();
    if let Err(DSTError::IncompatibleTypes(_)) = dst.connect(Output::new(a, 0), Input::new(b, 0)) {
        assert!(true);
    } else {
        assert!(false, "IncompatibleTypes expected!");
    }
}

#[test]
fn test_cycle_rejected() {
    let plus1 = get_plus1_transform();
    let mut dst = DST::new();
    let a = dst.add_transform(&plus1);
    let b = dst.add_transform(&plus1);
    dst.connect(Output::new(a, 0), Input::new(b, 0)).unwrap();
    let r = dst.connect(Output::new(b, 0), Input::new(a, 0));
    assert!(matches!(r, Err(DSTError::Cycle(_))));
}

#[test]
fn test_self_loop_rejected() {
    let plus1 = get_plus1_transform();
    let mut dst = DST::new();
    let a = dst.add_transform(&plus1);
    let r = dst.connect(Output::new(a, 0), Input::new(a, 0));
    assert!(matches!(r, Err(DSTError::Cycle(_))));
}

#[test]
fn test_duplicate_edge_rejected() {
    let plus1 = get_plus1_transform();
    let get1 = get_get1_transform();
    let mut dst = DST::new();
    let a = dst.add_transform(&get1);
    let c = dst.add_transform(&plus1);
    dst.connect(Output::new(a, 0), Input::new(c, 0)).unwrap();
    let r = dst.connect(Output::new(a, 0), Input::new(c, 0));
    assert!(matches!(r, Err(DSTError::DuplicateEdge(_))));
}

#[test]
fn test_invalid_ports_rejected() {
    let plus1 = get_plus1_transform();
    let get1 = get_get1_transform();
    let mut dst = DST::new();
    let a = dst.add_transform(&get1);
    let c = dst.add_transform(&plus1);
    let r = dst.connect(Output::new(a, 4), Input::new(c, 0));
    assert!(matches!(r, Err(DSTError::InvalidOutput(_))));
    let r = dst.connect(Output::new(a, 0), Input::new(c, 7));
    assert!(matches!(r, Err(DSTError::InvalidInput(_))));
}

#[test]
fn test_missing_output_id() {
    let mut dst = DST::new();
    let out = dst.create_output();
    // detached sink
    let r = dst.compute::<TestAlgos>(&out);
    assert!(matches!(r, Err(DSTError::MissingOutputID(_))));
}

#[test]
fn test_memoized_compute_is_stable() {
    let plus1 = get_plus1_transform();
    let mut dst = DST::new();
    let k = dst.add_owned_transform(Transformation::new_constant(vec![IOValue::Integer(5)]));
    let p = dst.add_transform(&plus1);
    dst.connect(Output::new(k, 0), Input::new(p, 0)).unwrap();
    let out = dst.create_output();
    dst.attach_output(out, Output::new(p, 0)).unwrap();
    let first = dst.compute::<TestAlgos>(&out).unwrap();
    let second = dst.compute::<TestAlgos>(&out).unwrap();
    assert_eq!(first, IOValue::Integer(6));
    assert_eq!(second, IOValue::Integer(6));
}

#[test]
fn test_set_constant_invalidates_cache() {
    let plus1 = get_plus1_transform();
    let mut dst = DST::new();
    let k = dst.add_owned_transform(Transformation::new_constant(vec![IOValue::Integer(5)]));
    let p = dst.add_transform(&plus1);
    dst.connect(Output::new(k, 0), Input::new(p, 0)).unwrap();
    let out = dst.create_output();
    dst.attach_output(out, Output::new(p, 0)).unwrap();
    assert_eq!(dst.compute::<TestAlgos>(&out).unwrap(), IOValue::Integer(6));
    dst.set_constant(k, vec![IOValue::Integer(10)]).unwrap();
    assert_eq!(dst.compute::<TestAlgos>(&out).unwrap(), IOValue::Integer(11));
}

#[test]
fn test_write_default_feeds_undriven_input() {
    let plus1 = get_plus1_transform();
    let mut dst = DST::new();
    let p = dst.add_transform(&plus1);
    let out = dst.create_output();
    dst.attach_output(out, Output::new(p, 0)).unwrap();
    // no driver and no default yet
    let r = dst.compute::<TestAlgos>(&out);
    assert!(matches!(r, Err(DSTError::ComputeError(_))));
    dst.write_default(p, 0, IOValue::Integer(41)).unwrap();
    assert_eq!(dst.compute::<TestAlgos>(&out).unwrap(), IOValue::Integer(42));
    // a default of the wrong type is refused
    let r = dst.write_default(p, 0, IOValue::Str("nope".to_owned()));
    assert!(matches!(r, Err(DSTError::IncompatibleTypes(_))));
}

#[test]
fn test_disconnect_reroutes() {
    let plus1 = get_plus1_transform();
    let minus1 = get_minus1_transform();
    let get1 = get_get1_transform();
    let mut dst = DST::new();
    let a = dst.add_transform(&get1);
    let p = dst.add_transform(&plus1);
    let m = dst.add_transform(&minus1);
    dst.connect(Output::new(a, 0), Input::new(p, 0)).unwrap();
    dst.connect(Output::new(p, 0), Input::new(m, 0)).unwrap();
    let out = dst.create_output();
    dst.attach_output(out, Output::new(m, 0)).unwrap();
    assert_eq!(dst.compute::<TestAlgos>(&out).unwrap(), IOValue::Integer(1));
    // reroute: feed minus1 from get1 directly
    dst.disconnect(&Output::new(p, 0), &Input::new(m, 0));
    dst.connect(Output::new(a, 0), Input::new(m, 0)).unwrap();
    assert_eq!(dst.compute::<TestAlgos>(&out).unwrap(), IOValue::Integer(0));
}

#[test]
fn test_serialize_round_trip() {
    let plus1 = get_plus1_transform();
    let minus1 = get_minus1_transform();
    let get1 = get_get1_transform();
    let mut dst = DST::new();
    let a = dst.add_transform(&get1);
    let b = dst.add_transform(&minus1);
    let c = dst.add_transform(&plus1);
    let d = dst.add_transform(&plus1);
    let k = dst.add_owned_transform(Transformation::new_constant(vec![IOValue::Str(
        "hello".to_owned(),
    )]));
    let _ = k;
    dst.connect(Output::new(a, 0), Input::new(c, 0)).unwrap();
    dst.connect(Output::new(a, 0), Input::new(b, 0)).unwrap();
    dst.connect(Output::new(c, 0), Input::new(d, 0)).unwrap();
    let out1 = dst.create_output();
    dst.attach_output(out1, Output::new(d, 0)).unwrap();
    let out2 = dst.create_output();
    dst.attach_output(out2, Output::new(b, 0)).unwrap();

    let serial = SerialDST::new(&dst);
    let mut dst2 = serial.clone().into_deser().into_dst::<TestAlgos>().unwrap();
    let serial2 = SerialDST::new(&dst2);
    assert_eq!(serial, serial2);

    // recomputed sinks match
    assert_eq!(dst2.compute::<TestAlgos>(&out1).unwrap(), IOValue::Integer(3));
    assert_eq!(dst2.compute::<TestAlgos>(&out2).unwrap(), IOValue::Integer(0));
    assert_eq!(dst.compute::<TestAlgos>(&out1).unwrap(), IOValue::Integer(3));
    assert_eq!(dst.compute::<TestAlgos>(&out2).unwrap(), IOValue::Integer(0));
}

#[test]
fn test_import_unknown_name_fails() {
    let unknown = Transformation {
        name: "no_such_algorithm".to_owned(),
        input: vec![],
        output: vec![IOType::Integer],
        algorithm: Algorithm::Function,
    };
    let mut dst = DST::new();
    let _ = dst.add_transform(&unknown);
    let serial = SerialDST::new(&dst);
    let r = serial.into_deser().into_dst::<TestAlgos>();
    assert!(matches!(r, Err(aflak_cake::ImportError::TransformNotFound(_))));
}

#[test]
fn test_value_tags() {
    assert_eq!(IOValue::Integer(3).get_type(), IOType::Integer);
    assert_eq!(IOValue::Float(0x3ff0000000000000).get_type(), IOType::Float);
    assert_eq!(IOValue::Str("x".to_owned()).get_type(), IOType::Str);
    assert_eq!(IOValue::Fits(7).get_type(), IOType::Fits);
    assert_eq!(IOValue::Image1d(vec![1, 2]).get_type(), IOType::Image1d);
    assert_eq!(IOValue::Image2d(vec![vec![1]]).get_type(), IOType::Image2d);
    assert_eq!(IOValue::Image3d(vec![vec![vec![1]]]).get_type(), IOType::Image3d);
    let v = IOValue::Image2d(vec![vec![1, 2], vec![3, 4]]);
    assert_eq!(v.duplicate(), v);
}

#[test]
fn test_caller_protocol() {
    let plus1 = get_plus1_transform();
    assert!(plus1.input_exists(0));
    assert!(!plus1.input_exists(1));
    assert!(plus1.output_exists(0));
    assert!(!plus1.output_exists(3));
    assert_eq!(plus1.nth_input_type(0), IOType::Integer);
    assert_eq!(plus1.nth_output_type(0), IOType::Integer);

    let mut caller = plus1.start();
    let r = caller.feed(IOValue::Str("wrong".to_owned()));
    assert!(matches!(r, Err(aflak_cake::FeedError::WrongType)));
    caller.feed(IOValue::Integer(1)).unwrap();
    let r = caller.feed(IOValue::Integer(2));
    assert!(matches!(r, Err(aflak_cake::FeedError::ArityMismatch)));
    let mut result = caller.call::<TestAlgos>().unwrap();
    assert_eq!(result.next(), Some(Ok(IOValue::Integer(2))));
    assert_eq!(result.next(), None);

    // calling before all inputs are fed is refused
    let caller = plus1.start();
    let r = caller.call::<TestAlgos>();
    assert!(matches!(r, Err(aflak_cake::FeedError::ArityMismatch)));

    // constants yield their stored outputs
    let k = Transformation::new_constant(vec![IOValue::Integer(9)]);
    let mut result = k.start().call::<TestAlgos>().unwrap();
    assert_eq!(result.next(), Some(Ok(IOValue::Integer(9))));
    assert_eq!(result.next(), None);
}

#[test]
fn test_input_list_and_ports() {
    let a = aflak_cake::TransformIdx(1);
    let o = Output::new(a, 2);
    assert_eq!(o.index(), 2);
    assert_eq!(o.t_idx.id(), 1);
    let i = Input::new(a, 0);
    assert_eq!(i.index(), 0);
    let mut list = InputList::new(vec![i]);
    let other = Input::new(aflak_cake::TransformIdx(2), 1);
    assert!(list.contains(&i));
    assert!(!list.contains(&other));
    list.push(other);
    assert!(list.contains(&other));
}

#[test]
fn test_iteration_listings() {
    let plus1 = get_plus1_transform();
    let get1 = get_get1_transform();
    let mut dst = DST::new();
    let a = dst.add_transform(&get1);
    let p = dst.add_transform(&plus1);
    dst.connect(Output::new(a, 0), Input::new(p, 0)).unwrap();
    let out = dst.create_output();
    dst.attach_output(out, Output::new(p, 0)).unwrap();

    assert_eq!(dst.transforms_iter(), vec![a, p]);
    assert_eq!(dst.edges_iter(), vec![(Output::new(a, 0), Input::new(p, 0))]);
    assert_eq!(dst.outputs_iter(), vec![(out, Some(Output::new(p, 0)))]);
    let nodes = dst.node_ids();
    assert_eq!(nodes.len(), 3);
    assert_eq!(nodes[0], aflak_cake::NodeId::Transform(a));
    assert_eq!(nodes[2], aflak_cake::NodeId::Output(out));
    let links = dst.links_iter();
    assert_eq!(links.len(), 2);
    assert!(links.contains(&(Output::new(a, 0), aflak_cake::InputSlot::Transform(Input::new(p, 0)))));
    assert!(links.contains(&(Output::new(p, 0), aflak_cake::InputSlot::Output(out))));

    // accessors
    assert_eq!(dst.get_transform(a).unwrap().name, "get1");
    assert!(dst.get_transform(aflak_cake::TransformIdx(99)).is_none());
    assert_eq!(dst.get_default_inputs(p).unwrap().len(), 1);
}

#[test]
fn test_remove_output() {
    let plus1 = get_plus1_transform();
    let mut dst = DST::new();
    let p = dst.add_transform(&plus1);
    let out = dst.create_output();
    dst.attach_output(out, Output::new(p, 0)).unwrap();
    dst.remove_output(out);
    let r = dst.compute::<TestAlgos>(&out);
    assert!(matches!(r, Err(DSTError::MissingOutputID(_))));
}

#[test]
fn test_inner_error_propagates() {
    // an algorithm that reports a failure surfaces it unchanged
    let mut dst = DST::new();
    let k = dst.add_owned_transform(Transformation::new_constant(vec![IOValue::Str(
        "not a number".to_owned(),
    )]));
    let bad = Transformation {
        name: "plus1".to_owned(),
        input: vec![(IOType::Str, None)],
        output: vec![IOType::Integer],
        algorithm: Algorithm::Function,
    };
    let p = dst.add_transform(&bad);
    dst.connect(Output::new(k, 0), Input::new(p, 0)).unwrap();
    let out = dst.create_output();
    dst.attach_output(out, Output::new(p, 0)).unwrap();
    let r = dst.compute::<TestAlgos>(&out);
    assert!(matches!(r, Err(DSTError::InnerComputeError(IOErr::UnexpectedInput(_)))));
}

#[test]
fn test_remove_transform() {
    let plus1 = get_plus1_transform();
    let get1 = get_get1_transform();
    let mut dst = DST::new();
    let a = dst.add_transform(&get1);
    let p = dst.add_transform(&plus1);
    dst.connect(Output::new(a, 0), Input::new(p, 0)).unwrap();
    let out = dst.create_output();
    dst.attach_output(out, Output::new(p, 0)).unwrap();
    assert_eq!(dst.compute::<TestAlgos>(&out).unwrap(), IOValue::Integer(2));

    // removing the upstream node drops its edge, so the consumer
    // loses its input and the next pull reports the missing dependency
    dst.remove_transform(a);
    assert!(dst.get_transform(a).is_none());
    assert_eq!(dst.edges_iter(), vec![]);
    let r = dst.compute::<TestAlgos>(&out);
    assert!(matches!(r, Err(DSTError::ComputeError(_))));

    // removing the observed node detaches the sink
    dst.remove_transform(p);
    let r = dst.compute::<TestAlgos>(&out);
    assert!(matches!(r, Err(DSTError::MissingOutputID(_))));

    // an unknown id is ignored
    let before = dst.transforms_iter();
    dst.remove_transform(aflak_cake::TransformIdx(99));
    assert_eq!(dst.transforms_iter(), before);
}

#[test]
fn test_timed_values() {
    let t = Timed::from_instant(41, 7);
    assert_eq!(Timed::created_on(&t), 7);
    let u = Timed::map(t, |x: i64| x + 1);
    assert_eq!(Timed::created_on(&u), 7);
    assert_eq!(Timed::take(u), 42);

    let ok: Timed<Result<i64, &str>> = Timed::from_instant(Ok(5), 3);
    let split = Timed::map_result(ok);
    let inner = split.unwrap();
    assert_eq!(Timed::created_on(&inner), 3);
    assert_eq!(Timed::take_from_result::<&str>(Ok(inner)), Ok(5));

    let bad: Timed<Result<i64, &str>> = Timed::from_instant(Err("late"), 9);
    let split = Timed::map_result(bad);
    assert!(split.is_err());
}

#[test]
fn test_resolve_input_sources() {
    let plus1 = get_plus1_transform();
    let get1 = get_get1_transform();
    let mut dst = DST::new();
    let a = dst.add_transform(&get1);
    let p = dst.add_transform(&plus1);
    let inp = Input::new(p, 0);
    // nothing drives the input and no default is set
    assert!(matches!(dst.resolve_input(inp), Err(DSTError::ComputeError(_))));
    // a default value is fed when present
    dst.write_default(p, 0, IOValue::Integer(4)).unwrap();
    match dst.resolve_input(inp) {
        Ok(InputSource::Default(v)) => assert_eq!(v, IOValue::Integer(4)),
        other => panic!("expected the default value, got {:?}", other),
    }
    // a driving edge wins over the default
    dst.connect(Output::new(a, 0), inp).unwrap();
    match dst.resolve_input(inp) {
        Ok(InputSource::Driver(o)) => assert_eq!(o, Output::new(a, 0)),
        other => panic!("expected the driver, got {:?}", other),
    }
}
