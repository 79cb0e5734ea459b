use transfer_core::proto::CoreEvent;
use transfer_core::startup::{
    configure, configure_as, is_remote_session, read_args, take_port, Overrides,
};
use transfer_core::store::Config;

fn args(list: &[&str]) -> Overrides {
    read_args(&list.iter().map(|s| s.to_string()).collect())
}

fn none() -> Overrides {
    Overrides { name: None, port: None }
}

#[test]
fn arguments_are_read() {
    assert_eq!(args(&["lt"]), none());
    assert_eq!(
        args(&["lt", "x", "--name", "B", "--port", "99"]),
        Overrides { name: Some("B".to_string()), port: Some(99) }
    );
    assert_eq!(args(&["lt", "--port", "70000"]), none());
    assert_eq!(args(&["lt", "--port", " 99"]), none());
    assert_eq!(args(&["lt", "--port", "1", "--port", "x"]), none());
    assert_eq!(args(&["lt", "--name"]), none());
    assert_eq!(
        args(&["--name", "B"]),
        none(),
    );
    assert_eq!(
        args(&["lt", "--name", "--port", "99"]),
        Overrides { name: Some("--port".to_string()), port: None }
    );
}

#[test]
fn first_instance_is_the_device() {
    let c = Config::fresh("/d".to_string());
    assert_eq!(configure(c.clone(), &none(), 1), c);
}

#[test]
fn other_instances_are_somebody_else() {
    let mut c = Config::fresh("/d".to_string());
    c.device_name = "A".to_string();
    let r = configure_as(c.clone(), &none(), 3, "ab12", "id2".to_string());
    assert_eq!(r.device_name, "A (3)");
    assert_eq!(r.device_id, "id2");
    let r = configure_as(c.clone(), &none(), 99, "ab12", "id2".to_string());
    assert_eq!(r.device_name, "A (ab12)");
    let over = Overrides { name: Some("B".to_string()), port: None };
    let r = configure_as(c.clone(), &over, 99, "ab12", "id2".to_string());
    assert_eq!(r.device_name, "B");
    let over = Overrides { name: None, port: Some(99) };
    let r = configure_as(c.clone(), &over, 1, "ab12", "id2".to_string());
    assert_eq!(r.device_name, "A");
    assert_eq!(r.device_id, "id2");
    assert_eq!(r.http_port, 99);
    let r = configure(c.clone(), &none(), 99);
    assert_eq!(r.device_name.len(), "A (ab12)".len());
    assert_ne!(r.device_id, c.device_id);
}

#[test]
fn busy_ports_are_told() {
    let mut c = Config::fresh("/d".to_string());
    assert_eq!(take_port(&mut c, Some(17878)), None);
    assert_eq!(
        take_port(&mut c, Some(17880)),
        Some(CoreEvent::Info("端口 17878 已被占用，本次改用 17880".to_string()))
    );
    assert_eq!(c.http_port, 17880);
    assert_eq!(
        take_port(&mut c, None),
        Some(CoreEvent::Error {
            context: "端口".to_string(),
            message: "端口 17880 至 17899 均被占用，传输服务可能无法启动".to_string(),
        })
    );
    c.http_port = 65530;
    assert_eq!(
        take_port(&mut c, None),
        Some(CoreEvent::Error {
            context: "端口".to_string(),
            message: "端口 65530 至 65535 均被占用，传输服务可能无法启动".to_string(),
        })
    );
}

#[test]
fn remote_sessions() {
    assert!(is_remote_session(Some("rdp-tcp#1")));
    assert!(is_remote_session(Some("RDP-")));
    assert!(!is_remote_session(Some("Console")));
    assert!(!is_remote_session(Some("RDP")));
    assert!(!is_remote_session(None));
}
