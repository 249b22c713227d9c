use mini_cross2::convert::{ConversionError, HostIdentity, PackageManager};
use mini_cross2::docker::Dockerfile;
use mini_cross2::mixin::{Mixin, MixinYaml};

fn identity() -> HostIdentity {
    HostIdentity {
        uid: 1000,
        gid: 1000,
        user_name: "dev".to_string(),
        group_name: "dev".to_string(),
    }
}

fn leaf(path: &str, base: Option<&str>, install: &[&str], script: Option<&str>) -> Mixin {
    let mut yaml = MixinYaml::default();
    yaml.base = base.map(String::from);
    if !install.is_empty() {
        yaml.install = Some(install.iter().map(|s| s.to_string()).collect());
    }
    Mixin {
        path: path.to_string(),
        yaml,
        children: Vec::new(),
        script: script.map(String::from),
    }
}

#[test]
fn dialect_table() {
    assert_eq!(
        PackageManager::from_str("fedora:41").unwrap(),
        PackageManager::DNF
    );
    assert_eq!(
        PackageManager::from_str("debian:12").unwrap(),
        PackageManager::APT
    );
    assert_eq!(
        PackageManager::from_str("Ubuntu:22.04").unwrap(),
        PackageManager::APT
    );
    assert_eq!(
        PackageManager::from_str("opensuse/leap:15").unwrap(),
        PackageManager::ZYPPER
    );
    assert_eq!(
        PackageManager::from_str("opensuse/tumbleweed").unwrap(),
        PackageManager::ZYPPER
    );
    assert_eq!(
        PackageManager::from_str("archlinux").unwrap(),
        PackageManager::PACMAN
    );
    assert_eq!(
        PackageManager::from_str("alpine:3.20").unwrap(),
        PackageManager::APK
    );
}

#[test]
fn unknown_distro_keeps_raw_string() {
    match PackageManager::from_str("slackware:15.0") {
        Err(ConversionError::UnknownBase(s)) => assert_eq!(s, "slackware:15.0"),
        other => panic!("expected an unknown-base failure, got {:?}", other),
    }
}

#[test]
fn install_command_joins_packages() {
    let pm = PackageManager::APT;
    let cmd = pm.install(&vec!["curl".to_string(), "git".to_string()]);
    let mut d = Dockerfile::new();
    d.add(cmd);
    assert_eq!(d.to_text(), "RUN apt install -y curl git\n");
}

#[test]
fn no_base_is_rejected() {
    let root = leaf("mc.yaml", None, &["curl"], None);
    match Dockerfile::from_mixin(&root, &identity(), &Vec::new()) {
        Err(ConversionError::NoBase) => {}
        other => panic!("expected a no-base failure, got {:?}", other),
    }
}

#[test]
fn two_bases_name_both_paths() {
    let mut root = leaf("mc.yaml", Some("ubuntu:22.04"), &[], None);
    root.children = vec![leaf("extra.yaml", Some("alpine:3.20"), &[], None)];
    match Dockerfile::from_mixin(&root, &identity(), &Vec::new()) {
        Err(ConversionError::MultipleBases { a, b }) => {
            assert_eq!(a, "extra.yaml");
            assert_eq!(b, "mc.yaml");
        }
        other => panic!("expected a multiple-bases failure, got {:?}", other),
    }
}

#[test]
fn single_base_succeeds() {
    let root = leaf("mc.yaml", Some("alpine:3.20"), &[], None);
    let d = Dockerfile::from_mixin(&root, &identity(), &Vec::new()).expect("builds");
    assert!(d.to_text().starts_with("FROM alpine:3.20\n"));
}

#[test]
fn unknown_base_in_tree_is_rejected() {
    let root = leaf("mc.yaml", Some("slackware:15.0"), &[], None);
    match Dockerfile::from_mixin(&root, &identity(), &Vec::new()) {
        Err(ConversionError::UnknownBase(s)) => assert_eq!(s, "slackware:15.0"),
        other => panic!("expected an unknown-base failure, got {:?}", other),
    }
}

#[test]
fn duplicate_package_installed_once() {
    let mut root = leaf("mc.yaml", Some("ubuntu:22.04"), &[], None);
    root.children = vec![
        leaf("b.yaml", None, &["git", "curl"], None),
        leaf("c.yaml", None, &["git", "vim"], None),
    ];
    let d = Dockerfile::from_mixin(&root, &identity(), &Vec::new()).expect("builds");
    let text = d.to_text();
    let git_installs = text
        .lines()
        .filter(|l| l.starts_with("RUN apt install -y") && l.contains("git"))
        .count();
    assert_eq!(git_installs, 1);
    assert!(text.contains("# Installs from: b.yaml\nRUN apt install -y git curl\n"));
    assert!(text.contains("# Installs from: c.yaml\nRUN apt install -y vim\n"));
}

#[test]
fn end_to_end_example() {
    let root = leaf(
        "mc.yaml",
        Some("ubuntu:22.04"),
        &["curl", "git"],
        Some("echo hello"),
    );
    let d = Dockerfile::from_mixin(&root, &identity(), &Vec::new()).expect("builds");
    let text = d.to_text();
    assert!(text.starts_with("FROM ubuntu:22.04\n"));
    let install_lines = text
        .lines()
        .filter(|l| l.starts_with("RUN apt install -y") && l.contains("curl"))
        .collect::<Vec<_>>();
    assert_eq!(install_lines, vec!["RUN apt install -y curl git"]);
    assert!(text.contains(
        "# Exec script from: mc.yaml\nRUN <<EOR\n/bin/sh -c echo hello\nEOR\n"
    ));
    assert!(text.ends_with("# Exec bash as entrypoint\nRUN /usr/bin/env bash\n"));
    let script_pos = text.find("Exec script from").unwrap();
    let entry_pos = text.find("Exec bash as entrypoint").unwrap();
    assert!(script_pos < entry_pos);

    let again = Dockerfile::from_mixin(&root, &identity(), &Vec::new()).expect("builds");
    assert_eq!(d.to_text(), again.to_text());
    assert_eq!(d.tag(), again.tag());
    assert!(d.tag().starts_with("mini-cross2-"));
    assert_eq!(d.tag().len(), "mini-cross2-".len() + 64);
}

#[test]
fn context_directories_copied_when_nested() {
    let root = leaf("work/conf/mc.yaml", Some("alpine:3.20"), &[], None);
    let dirs = vec![
        "work/conf/tools".to_string(),
        "work/conf/.hidden".to_string(),
    ];
    let d = Dockerfile::from_mixin(&root, &identity(), &dirs).expect("builds");
    let text = d.to_text();
    assert!(text.contains("# Adding context dirs\nCOPY work/conf/tools /tools\n"));
    assert!(!text.contains(".hidden"));
}

#[test]
fn context_directories_skipped_when_shallow() {
    let root = leaf("conf/mc.yaml", Some("alpine:3.20"), &[], None);
    let dirs = vec!["conf/tools".to_string()];
    let d = Dockerfile::from_mixin(&root, &identity(), &dirs).expect("builds");
    assert!(!d.to_text().contains("Adding context dirs"));
}

#[test]
fn user_provisioning_mirrors_identity() {
    let root = leaf("mc.yaml", Some("alpine:3.20"), &[], None);
    let who = HostIdentity {
        uid: 1234,
        gid: 4321,
        user_name: "alice".to_string(),
        group_name: "staff".to_string(),
    };
    let d = Dockerfile::from_mixin(&root, &who, &Vec::new()).expect("builds");
    let text = d.to_text();
    assert!(text.contains("RUN groupadd --gid 4321 staff\n"));
    assert!(text.contains("RUN useradd --gid 4321 --uid 1234 --home /home/alice alice\n"));
    assert!(text.contains("RUN chown 1234:4321 /home/alice\n"));
    assert!(text.contains("USER 1234:4321\n"));
}
