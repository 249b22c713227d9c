use mini_cross2::config::{ParsePublishError, ParseVolumeError, Publish, UserConfig, Volume};
use mini_cross2::docker::Dockerfile;

#[test]
fn test_parse_publish_3() {
    let raw = "127.0.0.1:8080:80";
    let expected = Publish {
        host_ip: Some("127.0.0.1".to_string()),
        host_port: 8080,
        machine_port: 80,
    };
    assert_eq!(Publish::from_str(raw).unwrap(), expected);
    assert_eq!(&expected.to_text(), raw);
}

#[test]
fn test_parse_publish_2() {
    let raw = "8080:80";
    let expected = Publish {
        host_ip: None,
        host_port: 8080,
        machine_port: 80,
    };
    assert_eq!(Publish::from_str(raw).unwrap(), expected);
    assert_eq!(&expected.to_text(), raw);
}

#[test]
fn test_parse_volume() {
    let raw = "/opt/custom_data:my_app/data";
    let expected = Volume {
        host_path: "/opt/custom_data".into(),
        machine_path: "my_app/data".into(),
        opts: Vec::new(),
    };
    assert_eq!(Volume::from_str(raw).unwrap(), expected);
    assert_eq!(&expected.to_text(), raw);
}

#[test]
fn test_parse_volume_opts() {
    let raw = "/opt/custom_data:my_app/data:ro,volume-nocopy";
    let expected = Volume {
        host_path: "/opt/custom_data".into(),
        machine_path: "my_app/data".into(),
        opts: Vec::from_iter(["ro", "volume-nocopy"].into_iter().map(String::from)),
    };
    assert_eq!(Volume::from_str(raw).unwrap(), expected);
    assert_eq!(&expected.to_text(), raw);
}

#[test]
fn publish_rejects_single_field() {
    assert_eq!(
        Publish::from_str("8080"),
        Err(ParsePublishError::InvalidFormat)
    );
}

#[test]
fn publish_rejects_four_fields() {
    assert_eq!(
        Publish::from_str("a:1:2:3"),
        Err(ParsePublishError::InvalidFormat)
    );
}

#[test]
fn publish_rejects_bad_port() {
    assert_eq!(
        Publish::from_str("eighty:80"),
        Err(ParsePublishError::IntParseError)
    );
    assert_eq!(
        Publish::from_str("70000:80"),
        Err(ParsePublishError::IntParseError)
    );
}

#[test]
fn publish_accepts_signed_port() {
    let p = Publish::from_str("+80:8080").unwrap();
    assert_eq!(p.host_port, 80);
    assert_eq!(p.machine_port, 8080);
}

#[test]
fn publish_port_bounds_round_trip() {
    for raw in ["0:0", "65535:65535", "1:65535"] {
        let p = Publish::from_str(raw).unwrap();
        assert_eq!(p.to_text(), raw);
    }
}

#[test]
fn volume_rejects_bad_shapes() {
    assert_eq!(
        Volume::from_str("justapath"),
        Err(ParseVolumeError::InvalidFormat)
    );
    assert_eq!(
        Volume::from_str("a:b:c:d"),
        Err(ParseVolumeError::InvalidFormat)
    );
    assert_eq!(
        Volume::from_str("a:b:rw"),
        Err(ParseVolumeError::InvalidFormat)
    );
}

#[test]
fn volume_readonly_opt() {
    let v = Volume::from_str("/a:/b:readonly").unwrap();
    assert_eq!(v.opts, vec!["readonly".to_string()]);
    assert_eq!(v.to_text(), "/a:/b:readonly");
}

#[test]
fn user_config_appends_runtime_parameters() {
    let cfg = UserConfig {
        publish: vec![Publish::from_str("8080:80").unwrap()],
        volume: vec![Volume::from_str("/usr/bin/test:/bin").unwrap()],
        env: vec![("A".to_string(), "B".to_string())],
    };
    let mut d = Dockerfile::new();
    cfg.append_docker(&mut d);
    let args = d.run_args(&Vec::new(), false, "/w", None);
    assert!(args.contains(&"-p".to_string()));
    assert!(args.contains(&"8080:80".to_string()));
    assert!(args.contains(&"/usr/bin/test:/bin".to_string()));
    assert!(args.contains(&"A=B".to_string()));
}
