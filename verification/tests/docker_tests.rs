use mini_cross2::config::{Publish, Volume};
use mini_cross2::docker::{Command, Dockerfile, User};

#[test]
fn canonical_text_one_line_per_instruction() {
    let mut d = Dockerfile::new();
    d.add(Command::FROM("ubuntu:22.04".to_string()));
    d.add(Command::RUN("echo hi".to_string()));
    assert_eq!(d.to_text(), "FROM ubuntu:22.04\nRUN echo hi\n");
}

#[test]
fn canonical_text_blank_line_before_comment() {
    let mut d = Dockerfile::new();
    d.add(Command::FROM("alpine".to_string()));
    d.add(Command::COMMENT("hello".to_string()));
    d.add(Command::ENV("K".to_string(), "V".to_string()));
    assert_eq!(d.to_text(), "FROM alpine\n\n# hello\nENV K=V\n");
}

#[test]
fn canonical_text_user_forms() {
    let mut d = Dockerfile::new();
    d.add(Command::USER(User { uid: 1000, gid: Some(100) }));
    d.add(Command::USER(User { uid: 7, gid: None }));
    d.add(Command::COPY("src".to_string(), "/dst".to_string()));
    d.add(Command::ARG("A".to_string(), "B".to_string()));
    assert_eq!(d.to_text(), "USER 1000:100\nUSER 7\nCOPY src /dst\nARG A=B\n");
}

#[test]
fn tag_is_stable_and_content_addressed() {
    let mut d = Dockerfile::new();
    d.add(Command::FROM("alpine:3.20".to_string()));
    let tag1 = d.tag();
    let tag2 = d.tag();
    assert_eq!(tag1, tag2);
    assert_eq!(
        tag1,
        "mini-cross2-399c98da6fe3e39c63f902fdd192a6e931b60e2f4496dd6f1c2aee6fac62929c"
    );
}

#[test]
fn tag_ignores_runtime_parameters() {
    let mut plain = Dockerfile::new();
    plain.add(Command::FROM("ubuntu:22.04".to_string()));
    plain.add(Command::RUN("echo hi".to_string()));
    let mut loaded = Dockerfile::new();
    loaded.add(Command::FROM("ubuntu:22.04".to_string()));
    loaded.add(Command::RUN("echo hi".to_string()));
    let publishes = vec![Publish::from_str("8080:80").unwrap()];
    let volumes = vec![Volume::from_str("/a:/b").unwrap()];
    loaded.add_publishes(&publishes);
    loaded.add_volumes(&volumes);
    loaded.add_env("K", "V");
    assert_eq!(plain.to_text(), loaded.to_text());
    assert_eq!(plain.tag(), loaded.tag());
    assert_eq!(
        plain.tag(),
        "mini-cross2-ef7771e8b5dd264f8e5a78b4fa50eaa8916b99753f4a77fe01875d0f6fa2a84c"
    );
}

#[test]
fn run_args_assembly() {
    let mut d = Dockerfile::new();
    d.add(Command::FROM("alpine".to_string()));
    let publishes = vec![Publish::from_str("8080:80").unwrap()];
    d.add_publishes(&publishes);
    d.add_env("K", "V");
    let cmd = vec!["bash".to_string(), "-c".to_string(), "ls".to_string()];
    let args = d.run_args(&cmd, true, "/work", Some(":0"));
    let tag = d.tag();
    let expected: Vec<String> = [
        "run",
        "--rm",
        "-v",
        "/work:/work",
        "-w",
        "/work",
        "-it",
        "-e",
        "DISPLAY=:0",
        "-v",
        "/tmp/.X11-unix:/tmp/.X11-unix",
        "-p",
        "8080:80",
        "-e",
        "K=V",
        &tag,
        "bash",
        "-c",
        "ls",
    ]
    .iter()
    .map(|s| s.to_string())
    .collect();
    assert_eq!(args, expected);
}

#[test]
fn env_and_arg_constructors() {
    let mut d = Dockerfile::new();
    d.add(Command::env("LANG", "C"));
    d.add(Command::arg("FRONTEND", "none"));
    assert_eq!(d.to_text(), "ENV LANG=C\nARG FRONTEND=none\n");
}

#[test]
fn write_to_appends() {
    let mut d = Dockerfile::new();
    d.add(Command::FROM("alpine".to_string()));
    let mut out = String::from("# prefix\n");
    d.write_to(&mut out);
    assert_eq!(out, "# prefix\nFROM alpine\n");
}
