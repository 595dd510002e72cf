use pick::sandbox::{
    bwrap_args, candidates, git_config_values, gpu_binds, is_socket, locale_vars, probe_detail,
    xauthority, Error, Host, Reason,
};

fn project() -> String {
    "/home/user/code/pick".to_owned()
}

fn home() -> Option<String> {
    Some("/home/user".to_owned())
}

fn exe() -> String {
    "/usr/local/bin/pick".to_owned()
}

fn host() -> Host {
    Host {
        cargo_home: false,
        rustup_home: false,
        projects_home: false,
        x11_unix: false,
        xauthority_file: false,
        known_hosts: false,
        gitconfig: false,
        signing_files: Vec::new(),
        agent_socket: None,
        dri: false,
        dev_entries: Vec::new(),
        path: Some("/usr/bin:/bin".to_owned()),
        user: Some("user".to_owned()),
        ssh_auth_sock: None,
        wayland_display: None,
        display: None,
        xauthority: None,
        xdg_runtime_dir: None,
        env: Vec::new(),
    }
}

fn windows(args: &[String], n: usize) -> Vec<Vec<&str>> {
    args.windows(n)
        .map(|w| w.iter().map(String::as_str).collect())
        .collect()
}

#[test]
fn the_root_is_read_only_and_the_project_writable() {
    let args = bwrap_args(&project(), &home(), &exe(), &host());

    assert!(windows(&args, 3).iter().any(|w| w == &["--ro-bind", "/", "/"]));
    let writable: Vec<Vec<&str>> = windows(&args, 3)
        .into_iter()
        .filter(|w| w[0] == "--bind" && !w[1].starts_with("/dev"))
        .collect();
    assert_eq!(
        writable,
        [vec!["--bind", "/home/user/code/pick", "/home/user/code/pick"]]
    );
    assert!(windows(&args, 2).iter().any(|w| w == &["--tmpfs", "/tmp"]));
}

#[test]
fn the_home_is_hidden_by_a_tmpfs() {
    let args = bwrap_args(&project(), &home(), &exe(), &host());
    assert!(windows(&args, 2).iter().any(|w| w == &["--tmpfs", "/home/user"]));
}

#[test]
fn the_toolchain_is_remounted_when_present() {
    let mut h = host();
    h.cargo_home = true;
    let args = bwrap_args(&project(), &home(), &exe(), &h);
    assert!(windows(&args, 3)
        .iter()
        .any(|w| w == &["--bind", "/home/user/.cargo", "/home/user/.cargo"]));
    assert!(!args.iter().any(|arg| arg.ends_with(".rustup")));
}

#[test]
fn the_projects_directory_is_bound_writable_when_present() {
    let mut h = host();
    h.projects_home = true;
    let args = bwrap_args(&project(), &home(), &exe(), &h);
    assert!(windows(&args, 3)
        .iter()
        .any(|w| w == &["--bind", "/home/user/projects", "/home/user/projects"]));
}

#[test]
fn the_projects_directory_is_not_bound_when_absent() {
    let args = bwrap_args(&project(), &home(), &exe(), &host());
    assert!(!args.iter().any(|arg| arg.ends_with("/projects")));
}

#[test]
fn an_executable_under_the_home_stays_reachable() {
    let args = bwrap_args(&project(), &home(), "/home/user/.local/bin/pick", &host());
    assert!(windows(&args, 3)
        .iter()
        .any(|w| w[0] == "--ro-bind" && w[1] == "/home/user/.local/bin"));
}

#[test]
fn an_executable_under_the_project_needs_no_extra_bind() {
    let args = bwrap_args(
        &project(),
        &home(),
        "/home/user/code/pick/target/debug/pick",
        &host(),
    );
    assert!(!windows(&args, 3)
        .iter()
        .any(|w| w[0] == "--ro-bind" && w[1] == "/home/user/code/pick/target/debug"));
}

#[test]
fn the_reexecution_ends_with_the_executable() {
    let args = bwrap_args(&project(), &home(), &exe(), &host());
    assert_eq!(args[args.len() - 2], "--");
    assert_eq!(args[args.len() - 1], "/usr/local/bin/pick");
}

#[test]
fn the_environment_is_cleared_down_to_the_basics() {
    let args = bwrap_args(&project(), &home(), &exe(), &host());
    assert!(args.contains(&"--clearenv".to_owned()));
    for name in ["PICK_SANDBOXED", "PATH", "HOME"] {
        assert!(
            windows(&args, 3).iter().any(|w| w[0] == "--setenv" && w[1] == name),
            "missing {name}"
        );
    }
}

#[test]
fn display_variables_are_forwarded_when_set() {
    let mut h = host();
    h.wayland_display = Some("wayland-0".to_owned());
    let args = bwrap_args(&project(), &home(), &exe(), &h);
    assert!(windows(&args, 3)
        .iter()
        .any(|w| w == &["--setenv", "WAYLAND_DISPLAY", "wayland-0"]));
}

#[test]
fn the_x11_socket_directory_is_bound_when_present() {
    let mut h = host();
    h.x11_unix = true;
    let args = bwrap_args(&project(), &home(), &exe(), &h);
    assert!(windows(&args, 3)
        .iter()
        .any(|w| w == &["--ro-bind", "/tmp/.X11-unix", "/tmp/.X11-unix"]));
}

#[test]
fn the_x_authority_file_is_bound_when_present() {
    let mut h = host();
    h.xauthority_file = true;
    let args = bwrap_args(&project(), &home(), &exe(), &h);
    assert!(windows(&args, 3)
        .iter()
        .any(|w| w[0] == "--ro-bind" && w[1] == "/home/user/.Xauthority"));

    let args = bwrap_args(&project(), &home(), &exe(), &host());
    assert!(!args.iter().any(|arg| arg.ends_with(".Xauthority")));
}

#[test]
fn the_x_authority_variable_wins_over_the_home() {
    assert_eq!(
        xauthority(&Some("/run/auth".to_owned()), &home()),
        Some("/run/auth".to_owned())
    );
    assert_eq!(
        xauthority(&None, &home()),
        Some("/home/user/.Xauthority".to_owned())
    );
    assert_eq!(xauthority(&None, &None), None);
}

#[test]
fn the_known_host_keys_are_bound_when_present() {
    let mut h = host();
    h.known_hosts = true;
    let args = bwrap_args(&project(), &home(), &exe(), &h);
    let known = "/home/user/.ssh/known_hosts";
    assert!(windows(&args, 3).iter().any(|w| w == &["--ro-bind", known, known]));
}

#[test]
fn the_known_host_keys_are_not_bound_when_absent() {
    let args = bwrap_args(&project(), &home(), &exe(), &host());
    assert!(!args.iter().any(|arg| arg.contains("known_hosts")));
}

#[test]
fn the_agent_socket_is_bound_when_set() {
    let mut h = host();
    h.agent_socket = Some("/run/user/1000/gnupg/S.gpg-agent.ssh".to_owned());
    h.ssh_auth_sock = h.agent_socket.clone();
    let args = bwrap_args(&project(), &home(), &exe(), &h);
    let sock = "/run/user/1000/gnupg/S.gpg-agent.ssh";
    assert!(windows(&args, 3).iter().any(|w| w[0] == "--bind" && w[1] == sock));
    assert!(windows(&args, 3)
        .iter()
        .any(|w| w[0] == "--setenv" && w[1] == "SSH_AUTH_SOCK"));
}

#[test]
fn the_agent_socket_directory_is_blanked_when_set() {
    let mut h = host();
    let sock = "/run/user/1000/gnupg/S.gpg-agent.ssh";
    h.agent_socket = Some(sock.to_owned());
    let args = bwrap_args(&project(), &home(), &exe(), &h);
    let dir = "/run/user/1000/gnupg";
    let blank = args
        .windows(2)
        .position(|w| w[0] == "--tmpfs" && w[1] == dir)
        .unwrap_or_else(|| panic!("no tmpfs for {dir}"));
    assert_ne!(args.get(blank + 2).map(String::as_str), Some(dir));
    let bind = args
        .windows(3)
        .position(|w| w[0] == "--bind" && w[1] == sock && w[2] == sock)
        .expect("the ssh-agent socket is bound back");
    assert!(blank < bind);
}

#[test]
fn a_socket_at_the_root_blanks_nothing() {
    let mut h = host();
    h.agent_socket = Some("/agent".to_owned());
    let args = bwrap_args(&project(), &home(), &exe(), &h);
    assert!(!windows(&args, 2).iter().any(|w| w == &["--tmpfs", "/"]));
}

#[test]
fn the_ssh_signing_files_are_bound_when_configured() {
    let (key, signers) = git_config_values(
        "[user]\n\temail = x@y.z\n\tsigningkey = /home/user/.ssh/id_ed25519.pub\n[gpg]\n\tformat = ssh\n\tssh.allowedSignersFile = /home/user/.ssh/allowed_signers\n",
    );
    assert_eq!(key.as_deref(), Some("/home/user/.ssh/id_ed25519.pub"));
    assert_eq!(signers.as_deref(), Some("/home/user/.ssh/allowed_signers"));

    let mut h = host();
    h.signing_files = vec![key.unwrap(), signers.unwrap()];
    let args = bwrap_args(&project(), &home(), &exe(), &h);
    for path in &h.signing_files {
        assert!(windows(&args, 3)
            .iter()
            .any(|w| w[0] == "--ro-bind" && w[1] == path && w[2] == path));
    }
}

#[test]
fn the_signers_file_is_found_in_subsection_form() {
    let (key, signers) = git_config_values(
        "[user]\n\tsigningkey = /k.pub\n[gpg \"ssh\"]\n\tallowedSignersFile = /signers\n",
    );
    assert_eq!(key.as_deref(), Some("/k.pub"));
    assert_eq!(signers.as_deref(), Some("/signers"));
}

#[test]
fn quoted_values_and_comments_are_read_as_git_does() {
    let (key, signers) = git_config_values(
        "# a comment\n; another\n[User]\n  SigningKey = \"/quoted key.pub\"\nbroken line\n",
    );
    assert_eq!(key.as_deref(), Some("/quoted key.pub"));
    assert_eq!(signers, None);
}

#[test]
fn a_fingerprint_signingkey_binds_nothing() {
    // In openpgp form `user.signingkey` is a fingerprint, not a file: the
    // host snapshot keeps only the configured values that name files.
    let (key, signers) = git_config_values(
        "[user]\n\tsigningkey = 1B8B3BF178EB4639B145E8447CC46565708259A7\n[gpg]\n\tformat = ssh\n\tssh.allowedSignersFile = /nonexistent/signers\n",
    );
    assert_eq!(key.as_deref(), Some("1B8B3BF178EB4639B145E8447CC46565708259A7"));
    assert_eq!(signers.as_deref(), Some("/nonexistent/signers"));

    let args = bwrap_args(&project(), &home(), &exe(), &host());
    assert!(!args.iter().any(|arg| arg.contains("1B8B3BF1")));
    assert!(!args.iter().any(|arg| arg.contains("signers")));
}

#[test]
fn a_home_without_gitconfig_binds_no_ssh_signing() {
    assert_eq!(git_config_values(""), (None, None));
    let args = bwrap_args(&project(), &home(), &exe(), &host());
    assert!(!args.iter().any(|arg| arg.contains("id_ed25519.pub")));
}

#[test]
fn the_bare_reasons_read_like_notices() {
    assert_eq!(
        Reason::Unsupported.to_string(),
        "bubblewrap is only available on Linux"
    );
    assert_eq!(
        Reason::Missing.to_string(),
        "no `bwrap` binary on the PATH; install bubblewrap"
    );
    assert!(Reason::Probe("unshare failed: EPERM".to_owned())
        .to_string()
        .contains("EPERM"));
}

#[test]
fn a_blank_probe_detail_names_the_usual_cause() {
    assert_eq!(
        Reason::Probe("  ".to_owned()).to_string(),
        "the sandbox probe failed (user namespaces may be disabled)"
    );
    assert_eq!(
        Error::DataDir("denied".to_owned()).to_string(),
        "the project's data directory could not be created: denied"
    );
    assert_eq!(
        Error::Scratch("full".to_owned()).to_string(),
        "the scratchpad could not be prepared: full"
    );
    assert_eq!(probe_detail(b"  bwrap: no\n"), "bwrap: no");
}

#[test]
fn the_gpu_devices_are_bound_when_present() {
    let binds = gpu_binds(
        true,
        &vec!["nvidiactl".to_owned(), "zero".to_owned(), "nvidia0".to_owned()],
    );
    assert_eq!(
        binds,
        [
            "--dev-bind",
            "/dev/dri",
            "/dev/dri",
            "--dev-bind",
            "/dev/nvidiactl",
            "/dev/nvidiactl",
            "--dev-bind",
            "/dev/nvidia0",
            "/dev/nvidia0"
        ]
    );
}

#[test]
fn an_empty_dev_needs_no_gpu_binds() {
    assert!(gpu_binds(false, &Vec::new()).is_empty());
}

#[test]
fn a_socket_is_told_by_its_mode() {
    assert!(is_socket(0o140755));
    assert!(!is_socket(0o100644));
    assert!(!is_socket(0o040755));
}

#[test]
fn finds_the_binary_on_the_path() {
    assert_eq!(
        candidates("bwrap", "/usr/bin:/bin:"),
        ["/usr/bin/bwrap", "/bin/bwrap", "bwrap"]
    );
}

#[test]
fn locale_vars_forward_the_hosts_locale_when_set() {
    let vars = vec![
        ("PATH".to_owned(), "/usr/bin".to_owned()),
        ("LANG".to_owned(), "en_US.UTF-8".to_owned()),
        ("LC_TIME".to_owned(), "de_DE.UTF-8".to_owned()),
        ("LC_ALL".to_owned(), "C".to_owned()),
        ("XDG_RUNTIME_DIR".to_owned(), "/run/user/1000".to_owned()),
    ];
    assert_eq!(
        locale_vars(&vars),
        vec![
            ("LANG".to_owned(), "en_US.UTF-8".to_owned()),
            ("LC_TIME".to_owned(), "de_DE.UTF-8".to_owned()),
            ("LC_ALL".to_owned(), "C".to_owned()),
        ]
    );
}

#[test]
fn locale_vars_fall_back_to_utf8_when_unset() {
    let vars = vec![
        ("PATH".to_owned(), "/usr/bin".to_owned()),
        ("HOME".to_owned(), "/home/user".to_owned()),
    ];
    assert_eq!(
        locale_vars(&vars),
        vec![("LC_ALL".to_owned(), "C.UTF-8".to_owned())]
    );
}

#[test]
fn locale_vars_treat_an_empty_value_as_unset() {
    let vars = vec![("LANG".to_owned(), String::new())];
    assert_eq!(
        locale_vars(&vars),
        vec![("LC_ALL".to_owned(), "C.UTF-8".to_owned())]
    );
}

#[test]
fn the_locale_reaches_the_bwrap_arguments() {
    let mut h = host();
    h.env = vec![("LANG".to_owned(), "fr_FR.UTF-8".to_owned())];
    let args = bwrap_args(&project(), &home(), &exe(), &h);
    assert!(windows(&args, 3)
        .iter()
        .any(|w| w == &["--setenv", "LANG", "fr_FR.UTF-8"]));
}
