use rivet::cgroups::{cgroup_file, cgroup_path, cpu_max_content, join_path};

#[test]
fn cgroup_paths() {
    assert_eq!(cgroup_path("web"), "/sys/fs/cgroup/web");
    assert_eq!(cgroup_file("web", "cpu.max"), "/sys/fs/cgroup/web/cpu.max");
    assert_eq!(cgroup_path("/abs"), "/abs");
    assert_eq!(cgroup_path(""), "/sys/fs/cgroup/");
    assert_eq!(cgroup_file("", "memory.max"), "/sys/fs/cgroup/memory.max");
    assert_eq!(join_path("", "x"), "x");
}

#[test]
fn cpu_max_text() {
    assert_eq!(cpu_max_content(0), "max 100000");
    assert_eq!(cpu_max_content(50000), "50000 100000");
    assert_eq!(cpu_max_content(200000), "200000 100000");
}
