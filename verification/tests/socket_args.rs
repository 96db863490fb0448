use tubular::loader::{check_loader_args, LoaderArgError};
use tubular::proc_fd::{
    after_duplicate, after_socket_check, parse_proc_fd_path, proc_fd_path, resolve_start, ResolveError,
    ResolveStep,
};

#[test]
fn parses_proc_fd_paths() {
    assert_eq!(parse_proc_fd_path("/proc/1234/fd/3"), Some((1234, 3)));
    assert_eq!(parse_proc_fd_path("proc/1/fd/2"), Some((1, 2)));
    assert_eq!(parse_proc_fd_path("///proc/+7/fd/-1"), Some((7, -1)));
}

#[test]
fn refuses_other_paths() {
    for arg in [
        "/proc/1234/fd/3/", "/proc/1234/fd", "/proc/x/fd/3", "/proc/1/fds/3", "/sys/1/fd/3", "", "3",
        "/proc/1//fd/3", "/proc/99999999999/fd/3", "/Proc/1/fd/3",
    ] {
        assert_eq!(parse_proc_fd_path(arg), None, "{arg:?}");
    }
}

#[test]
fn formatted_path_reads_back() {
    let path = proc_fd_path(4321, 5);
    assert_eq!(path, b"/proc/4321/fd/5".to_vec());
    assert_eq!(parse_proc_fd_path(std::str::from_utf8(&path).unwrap()), Some((4321, 5)));
    let path = proc_fd_path(0, -3);
    assert_eq!(String::from_utf8(path).unwrap(), format!("/proc/{}/fd/{}", 0, -3));
}

#[test]
fn resolution_starts_by_kind_of_argument() {
    assert_eq!(resolve_start("/proc/10/fd/4"), ResolveStep::Duplicate { pid: 10, fd: 4 });
    assert_eq!(resolve_start("7"), ResolveStep::CheckSocket { fd: 7, duplicated: false });
    assert_eq!(resolve_start("sock"), ResolveStep::Failed(ResolveError::Unrecognized));
    assert_eq!(resolve_start("/proc/10/fd/x"), ResolveStep::Failed(ResolveError::Unrecognized));
}

#[test]
fn resolution_after_outside_work() {
    assert_eq!(after_duplicate(Some(9)), ResolveStep::CheckSocket { fd: 9, duplicated: true });
    assert_eq!(after_duplicate(None), ResolveStep::Failed(ResolveError::Unrecognized));
    assert_eq!(after_socket_check(9, true, true), ResolveStep::Resolved { fd: 9 });
    assert_eq!(after_socket_check(9, true, false), ResolveStep::Failed(ResolveError::Unrecognized));
    assert_eq!(after_socket_check(3, false, false), ResolveStep::Failed(ResolveError::NotASocket { fd: 3 }));
    assert_eq!(after_socket_check(3, false, true), ResolveStep::Resolved { fd: 3 });
}

#[test]
fn loader_argument_count() {
    assert_eq!(check_loader_args(0), Err(LoaderArgError::Usage));
    assert_eq!(check_loader_args(2), Err(LoaderArgError::Usage));
    assert_eq!(check_loader_args(3), Ok(1));
    assert_eq!(check_loader_args(66), Ok(64));
    assert_eq!(check_loader_args(67), Err(LoaderArgError::TooManySockets));
}
