//! `/proc/<pid>/fd/<n>` paths: how the demo server names its listening socket,
//! and how the loader reads such a name back.
use vstd::prelude::*;
use vstd::string::StringSliceAdditionalSpecFns;
use crate::decimal::{
    digits_value, is_canonical_decimal, is_canonical_signed, lemma_decimal_is_canonical,
    lemma_signed_decimal_is_canonical,
    lemma_decimal, lemma_parse_signed_decimal, parse_i32, parse_i32_spec, push_decimal,
    push_signed_decimal, decimal, signed_decimal,
};

verus! {

/// ASCII `'/'`.
pub const ASCII_SLASH: u8 = 47;

/// `s` without all of its leading `c` bytes, as `str::trim_start_matches(c)`.
pub open spec fn trim_leading(s: Seq<u8>, c: u8) -> Seq<u8>
    decreases s.len(),
{
    if s.len() > 0 && s[0] == c {
        trim_leading(s.skip(1), c)
    } else {
        s
    }
}

/// The pieces of `s` between occurrences of `sep`, as `str::split(sep)`:
/// there is always one piece more than there are separators.
pub open spec fn split_on(s: Seq<u8>, sep: u8) -> Seq<Seq<u8>>
    decreases s.len(),
{
    if s.len() == 0 {
        seq![Seq::<u8>::empty()]
    } else {
        let p = split_on(s.drop_last(), sep);
        if s.last() == sep {
            p.push(Seq::<u8>::empty())
        } else {
            p.update(p.len() - 1, p.last().push(s.last()))
        }
    }
}

pub proof fn lemma_split_on_nonempty(s: Seq<u8>, sep: u8)
    ensures
        split_on(s, sep).len() >= 1,
    decreases s.len(),
{
    if s.len() > 0 {
        lemma_split_on_nonempty(s.drop_last(), sep);
    }
}

/// `"proc"`.
pub open spec fn proc_word() -> Seq<u8> {
    seq![112u8, 114u8, 111u8, 99u8]
}

/// `"fd"`.
pub open spec fn fd_word() -> Seq<u8> {
    seq![102u8, 100u8]
}

/// The process id and descriptor number that `s` names, if after its leading
/// slashes it reads `proc/<pid>/fd/<n>` with `<pid>` and `<n>` both `i32` numbers.
pub open spec fn proc_fd_target(s: Seq<u8>) -> Option<(int, int)> {
    let parts = split_on(trim_leading(s, ASCII_SLASH), ASCII_SLASH);
    if parts.len() == 4 && parts[0] == proc_word() && parts[2] == fd_word() {
        match (parse_i32_spec(parts[1]), parse_i32_spec(parts[3])) {
            (Some(pid), Some(fd)) => Some((pid, fd)),
            _ => None,
        }
    } else {
        None
    }
}

/// The pieces joined back with `sep` between each two.
pub open spec fn join_on(parts: Seq<Seq<u8>>, sep: u8) -> Seq<u8>
    decreases parts.len(),
{
    if parts.len() == 0 {
        Seq::empty()
    } else if parts.len() == 1 {
        parts[0]
    } else {
        join_on(parts.drop_last(), sep) + seq![sep] + parts.last()
    }
}

/// Splitting loses nothing: joining the pieces with the separator gives the
/// text back, and no piece holds a separator.
pub proof fn lemma_split_join(x: Seq<u8>, sep: u8)
    ensures
        join_on(split_on(x, sep), sep) == x,
        forall|j: int, i: int|
            0 <= j < split_on(x, sep).len() && 0 <= i < split_on(x, sep)[j].len()
                ==> #[trigger] split_on(x, sep)[j][i] != sep,
    decreases x.len(),
{
    if x.len() > 0 {
        let y = x.drop_last();
        let c = x.last();
        lemma_split_join(y, sep);
        lemma_split_on_nonempty(y, sep);
        let p = split_on(y, sep);
        assert(y.push(c) =~= x);
        if c == sep {
            assert(p.push(Seq::<u8>::empty()).drop_last() =~= p);
            assert(join_on(split_on(x, sep), sep) =~= x);
        } else {
            let q = p.update(p.len() - 1, p.last().push(c));
            assert(split_on(x, sep) == q);
            if p.len() == 1 {
                assert(join_on(q, sep) =~= x);
            } else {
                assert(q.drop_last() =~= p.drop_last());
                assert(join_on(q, sep) =~= x);
            }
            assert forall|j: int, i: int|
                0 <= j < q.len() && 0 <= i < q[j].len() implies #[trigger] q[j][i] != sep by {
                if j == q.len() - 1 && i == q[j].len() - 1 {
                    assert(q[j][i] == c);
                } else if j == q.len() - 1 {
                    assert(q[j][i] == p[j][i]);
                }
            }
        }
    } else {
        assert(split_on(x, sep) =~= seq![Seq::<u8>::empty()]);
    }
}

/// `k` copies of `c`.
pub open spec fn repeat_byte(c: u8, k: nat) -> Seq<u8> {
    Seq::new(k, |i: int| c)
}

/// Trimming removes exactly the leading run of `c`.
proof fn lemma_trim_leading_run(s: Seq<u8>, c: u8) -> (k: nat)
    ensures
        k <= s.len(),
        s.take(k as int) == repeat_byte(c, k),
        trim_leading(s, c) == s.skip(k as int),
        s.skip(k as int).len() == 0 || s.skip(k as int)[0] != c,
    decreases s.len(),
{
    if s.len() > 0 && s[0] == c {
        let k1 = lemma_trim_leading_run(s.skip(1), c);
        assert(s.skip(1).skip(k1 as int) =~= s.skip(k1 + 1int));
        assert(s.take(k1 + 1int) =~= repeat_byte(c, k1 + 1)) by {
            assert forall|i: int| 0 <= i < k1 + 1 implies #[trigger] s.take(k1 + 1int)[i] == c by {
                if i > 0 {
                    assert(s.skip(1).take(k1 as int)[i - 1] == s[i]);
                }
            }
        }
        k1 + 1
    } else {
        assert(s.take(0) =~= repeat_byte(c, 0));
        assert(s.skip(0) =~= s);
        0
    }
}

/// Trimming a run of `c` in front of text that does not start with `c` gives that text.
proof fn lemma_trim_repeat(k: nat, x: Seq<u8>, c: u8)
    requires
        x.len() > 0,
        x[0] != c,
    ensures
        trim_leading(repeat_byte(c, k) + x, c) == x,
    decreases k,
{
    if k > 0 {
        assert((repeat_byte(c, k) + x).skip(1) =~= repeat_byte(c, (k - 1) as nat) + x);
        lemma_trim_repeat((k - 1) as nat, x, c);
    } else {
        assert(repeat_byte(c, k) + x =~= x);
    }
}

proof fn lemma_no_slash_when_numeric(a: Seq<u8>)
    requires
        parse_i32_spec(a) is Some,
    ensures
        forall|i: int| 0 <= i < a.len() ==> a[i] != ASCII_SLASH,
{
    assert forall|i: int| 0 <= i < a.len() implies a[i] != ASCII_SLASH by {
        let d = crate::decimal::signed_body(a);
        if d.len() < a.len() && i > 0 {
            assert(d[i - 1] == a[i]);
        }
    }
}

proof fn lemma_target_forward(s: Seq<u8>, pid: int, fd: int) -> (w: (nat, Seq<u8>, Seq<u8>))
    requires
        proc_fd_target(s) == Some((pid, fd)),
    ensures
        s == repeat_byte(47u8, w.0) + seq![112u8, 114u8, 111u8, 99u8, 47u8] + w.1
            + seq![47u8, 102u8, 100u8, 47u8] + w.2,
        parse_i32_spec(w.1) == Some(pid),
        parse_i32_spec(w.2) == Some(fd),
{
    let k = lemma_trim_leading_run(s, ASCII_SLASH);
    let t = s.skip(k as int);
    let parts = split_on(t, ASCII_SLASH);
    lemma_split_join(t, ASCII_SLASH);
    let p3 = parts.drop_last();
    let p2 = p3.drop_last();
    let p1 = p2.drop_last();
    assert(p1 =~= seq![parts[0]]);
    assert(join_on(p1, ASCII_SLASH) == parts[0]);
    assert(join_on(p2, ASCII_SLASH) == join_on(p1, ASCII_SLASH) + seq![ASCII_SLASH] + parts[1]);
    assert(join_on(p3, ASCII_SLASH) == join_on(p2, ASCII_SLASH) + seq![ASCII_SLASH] + parts[2]);
    assert(join_on(parts, ASCII_SLASH) == join_on(p3, ASCII_SLASH) + seq![ASCII_SLASH] + parts[3]);
    let a = parts[1];
    let b = parts[3];
    assert(s =~= s.take(k as int) + t);
    assert(parts[0] =~= seq![112u8, 114u8, 111u8, 99u8]);
    assert(parts[2] =~= seq![102u8, 100u8]);
    assert(s =~= repeat_byte(47u8, k) + seq![112u8, 114u8, 111u8, 99u8, 47u8] + a
        + seq![47u8, 102u8, 100u8, 47u8] + b);
    (k, a, b)
}

proof fn lemma_target_backward(s: Seq<u8>, k: nat, a: Seq<u8>, b: Seq<u8>, pid: int, fd: int)
    requires
        s == repeat_byte(47u8, k) + seq![112u8, 114u8, 111u8, 99u8, 47u8] + a
            + seq![47u8, 102u8, 100u8, 47u8] + b,
        parse_i32_spec(a) == Some(pid),
        parse_i32_spec(b) == Some(fd),
    ensures
        proc_fd_target(s) == Some((pid, fd)),
{
    let pw = seq![112u8, 114u8, 111u8, 99u8];
    let fw = seq![102u8, 100u8];
    assert(pw =~= proc_word());
    assert(fw =~= fd_word());
    let x = ((pw.push(ASCII_SLASH) + a).push(ASCII_SLASH) + fw).push(ASCII_SLASH) + b;
    assert(s =~= repeat_byte(47u8, k) + x);
    lemma_trim_repeat(k, x, ASCII_SLASH);
    lemma_no_slash_when_numeric(a);
    lemma_no_slash_when_numeric(b);
    lemma_split_append((pw.push(ASCII_SLASH) + a).push(ASCII_SLASH) + fw, b, ASCII_SLASH);
    lemma_split_append(pw.push(ASCII_SLASH) + a, fw, ASCII_SLASH);
    lemma_split_append(pw, a, ASCII_SLASH);
    lemma_split_without_sep(pw, ASCII_SLASH);
    lemma_split_without_sep(fw, ASCII_SLASH);
    lemma_split_without_sep(a, ASCII_SLASH);
    lemma_split_without_sep(b, ASCII_SLASH);
    assert(split_on(x, ASCII_SLASH) =~= seq![pw, a, fw, b]);
}

/// A path reads as `(pid, fd)` exactly when it is some number of `'/'`, then
/// `proc/`, then text that `str::parse::<i32>` reads as `pid`, then `/fd/`,
/// then text that reads as `fd`.
pub proof fn lemma_proc_fd_target_characterized(s: Seq<u8>, pid: int, fd: int)
    ensures
        proc_fd_target(s) == Some((pid, fd)) <==> exists|k: nat, a: Seq<u8>, b: Seq<u8>|
            #![trigger repeat_byte(47u8, k), parse_i32_spec(a), parse_i32_spec(b)]
            s == repeat_byte(47u8, k) + seq![112u8, 114u8, 111u8, 99u8, 47u8] + a
                + seq![47u8, 102u8, 100u8, 47u8] + b
            && parse_i32_spec(a) == Some(pid) && parse_i32_spec(b) == Some(fd),
{
    if proc_fd_target(s) == Some((pid, fd)) {
        let (k, a, b) = lemma_target_forward(s, pid, fd);
        assert(repeat_byte(47u8, k) == repeat_byte(47u8, k));
    }
    if exists|k: nat, a: Seq<u8>, b: Seq<u8>|
        #![trigger repeat_byte(47u8, k), parse_i32_spec(a), parse_i32_spec(b)]
        s == repeat_byte(47u8, k) + seq![112u8, 114u8, 111u8, 99u8, 47u8] + a
            + seq![47u8, 102u8, 100u8, 47u8] + b
        && parse_i32_spec(a) == Some(pid) && parse_i32_spec(b) == Some(fd) {
        let (k, a, b) = choose|k: nat, a: Seq<u8>, b: Seq<u8>|
            #![trigger repeat_byte(47u8, k), parse_i32_spec(a), parse_i32_spec(b)]
            s == repeat_byte(47u8, k) + seq![112u8, 114u8, 111u8, 99u8, 47u8] + a
                + seq![47u8, 102u8, 100u8, 47u8] + b
            && parse_i32_spec(a) == Some(pid) && parse_i32_spec(b) == Some(fd);
        lemma_target_backward(s, k, a, b, pid, fd);
    }
}

/// The index of the first byte of `s` that is not `c`.
fn skip_leading(s: &[u8], c: u8) -> (k: usize)
    ensures
        k <= s@.len(),
        trim_leading(s@, c) == s@.skip(k as int),
{
    let mut k: usize = 0;
    assert(s@.skip(0) =~= s@);
    while k < s.len() && s[k] == c
        invariant
            k <= s@.len(),
            trim_leading(s@, c) == trim_leading(s@.skip(k as int), c),
        decreases s@.len() - k,
    {
        assert(s@.skip(k as int).skip(1) =~= s@.skip(k + 1));
        k = k + 1;
    }
    k
}

/// The pieces of `s[from..]` between occurrences of `sep`.
fn split_from(s: &[u8], from: usize, sep: u8) -> (parts: Vec<Vec<u8>>)
    requires
        from <= s@.len(),
    ensures
        parts@.len() == split_on(s@.skip(from as int), sep).len(),
        forall|j: int|
            0 <= j < parts@.len() ==> #[trigger] parts@[j]@ == split_on(s@.skip(from as int), sep)[j],
{
    let mut parts: Vec<Vec<u8>> = Vec::new();
    let mut cur: Vec<u8> = Vec::new();
    let mut i: usize = from;
    assert(s@.subrange(from as int, from as int) =~= Seq::<u8>::empty());
    while i < s.len()
        invariant
            from <= i <= s@.len(),
            parts@.len() + 1 == split_on(s@.subrange(from as int, i as int), sep).len(),
            forall|j: int|
                0 <= j < parts@.len() ==> #[trigger] parts@[j]@ == split_on(
                    s@.subrange(from as int, i as int),
                    sep,
                )[j],
            cur@ == split_on(s@.subrange(from as int, i as int), sep).last(),
        decreases s@.len() - i,
    {
        let ghost pre = s@.subrange(from as int, i as int);
        let ghost next = s@.subrange(from as int, i + 1);
        assert(next.drop_last() =~= pre);
        assert(next.last() == s@[i as int]);
        proof {
            lemma_split_on_nonempty(pre, sep);
        }
        let b = s[i];
        if b == sep {
            parts.push(cur);
            cur = Vec::new();
        } else {
            cur.push(b);
        }
        i = i + 1;
    }
    assert(s@.subrange(from as int, i as int) =~= s@.skip(from as int));
    parts.push(cur);
    parts
}

/// Whether `v` holds exactly the bytes `"proc"`.
fn is_proc_word(v: &Vec<u8>) -> (r: bool)
    ensures
        r == (v@ == proc_word()),
{
    let r = v.len() == 4 && v[0] == 112 && v[1] == 114 && v[2] == 111 && v[3] == 99;
    if r {
        assert(v@ =~= proc_word());
    }
    r
}

/// Whether `v` holds exactly the bytes `"fd"`.
fn is_fd_word(v: &Vec<u8>) -> (r: bool)
    ensures
        r == (v@ == fd_word()),
{
    let r = v.len() == 2 && v[0] == 102 && v[1] == 100;
    if r {
        assert(v@ =~= fd_word());
    }
    r
}

/// Reads `(pid, fd)` out of a `/proc/<pid>/fd/<n>` path. Leading slashes may be
/// repeated or missing; anything else that is not exactly four `/`-separated
/// pieces `proc`, an `i32`, `fd`, an `i32` gives `None`.
pub fn parse_proc_fd_path(arg: &str) -> (r: Option<(i32, i32)>)
    ensures
        match r {
            Some((pid, fd)) => proc_fd_target(arg.spec_bytes()) == Some((pid as int, fd as int)),
            None => proc_fd_target(arg.spec_bytes()) is None,
        },
{
    let bytes = arg.as_bytes();
    let start = skip_leading(bytes, ASCII_SLASH);
    let parts = split_from(bytes, start, ASCII_SLASH);
    if parts.len() != 4 || !is_proc_word(&parts[0]) || !is_fd_word(&parts[2]) {
        return None;
    }
    let pid = parse_i32(parts[1].as_slice());
    let fd = parse_i32(parts[3].as_slice());
    match (pid, fd) {
        (Some(pid), Some(fd)) => Some((pid, fd)),
        _ => None,
    }
}


/// The path `/proc/<pid>/fd/<fd>`.
pub open spec fn proc_fd_path_spec(pid: nat, fd: int) -> Seq<u8> {
    seq![ASCII_SLASH] + proc_word() + seq![ASCII_SLASH] + decimal(pid) + seq![ASCII_SLASH]
        + fd_word() + seq![ASCII_SLASH] + signed_decimal(fd)
}

/// Formats the path under which process `pid` exposes its descriptor `fd`,
/// as `format!("/proc/{}/fd/{}", pid, fd)`.
pub fn proc_fd_path(pid: u32, fd: i32) -> (path: Vec<u8>)
    ensures
        path@ == proc_fd_path_spec(pid as nat, fd as int),
{
    let mut out: Vec<u8> = Vec::new();
    out.push(ASCII_SLASH);
    out.push(112);
    out.push(114);
    out.push(111);
    out.push(99);
    out.push(ASCII_SLASH);
    push_decimal(&mut out, pid as u64);
    out.push(ASCII_SLASH);
    out.push(102);
    out.push(100);
    out.push(ASCII_SLASH);
    push_signed_decimal(&mut out, fd);
    assert(out@ =~= proc_fd_path_spec(pid as nat, fd as int));
    out
}

/// The path is `"/proc/"`, then the process id in canonical decimal (digits
/// only, no sign, no leading zero), then `"/fd/"`, then the descriptor in
/// canonical signed decimal.
pub proof fn lemma_proc_fd_path_shape(pid: nat, fd: int)
    ensures
        ({
            let p = proc_fd_path_spec(pid, fd);
            &&& p.take(6) == seq![47u8, 112u8, 114u8, 111u8, 99u8, 47u8]
            &&& exists|n: int|
                #![trigger p.subrange(6, 6 + n)]
                0 < n && 6 + n + 4 < p.len()
                && is_canonical_decimal(p.subrange(6, 6 + n))
                && digits_value(p.subrange(6, 6 + n)) == pid
                && p.subrange(6 + n, 6 + n + 4) == seq![47u8, 102u8, 100u8, 47u8]
                && is_canonical_signed(p.skip(6 + n + 4), fd)
        }),
{
    let p = proc_fd_path_spec(pid, fd);
    let d = decimal(pid);
    let n = d.len() as int;
    lemma_decimal_is_canonical(pid);
    lemma_signed_decimal_is_canonical(fd);
    assert(p.take(6) =~= seq![47u8, 112u8, 114u8, 111u8, 99u8, 47u8]);
    assert(p.subrange(6, 6 + n) =~= d);
    assert(p.subrange(6 + n, 6 + n + 4) =~= seq![47u8, 102u8, 100u8, 47u8]);
    assert(p.skip(6 + n + 4) =~= signed_decimal(fd));
}

/// A piece without separators splits into itself alone.
pub proof fn lemma_split_without_sep(x: Seq<u8>, sep: u8)
    requires
        forall|i: int| 0 <= i < x.len() ==> x[i] != sep,
    ensures
        split_on(x, sep) == seq![x],
    decreases x.len(),
{
    if x.len() > 0 {
        lemma_split_without_sep(x.drop_last(), sep);
        assert(x.drop_last().push(x.last()) =~= x);
        assert(split_on(x, sep) =~= seq![x]);
    } else {
        assert(x =~= Seq::<u8>::empty());
    }
}

/// Splitting at a separator splits the two sides independently.
pub proof fn lemma_split_append(a: Seq<u8>, b: Seq<u8>, sep: u8)
    ensures
        split_on(a.push(sep) + b, sep) == split_on(a, sep) + split_on(b, sep),
    decreases b.len(),
{
    let x = a.push(sep) + b;
    lemma_split_on_nonempty(a, sep);
    if b.len() == 0 {
        assert(x =~= a.push(sep));
        assert(x.drop_last() =~= a);
        assert(split_on(x, sep) =~= split_on(a, sep) + split_on(b, sep));
    } else {
        lemma_split_append(a, b.drop_last(), sep);
        lemma_split_on_nonempty(b.drop_last(), sep);
        assert(x.drop_last() =~= a.push(sep) + b.drop_last());
        assert(x.last() == b.last());
        assert(split_on(x, sep) =~= split_on(a, sep) + split_on(b, sep));
    }
}

proof fn lemma_no_slash_in_decimal(v: int)
    ensures
        forall|i: int| 0 <= i < signed_decimal(v).len() ==> signed_decimal(v)[i] != ASCII_SLASH,
{
    if v < 0 {
        lemma_decimal((-v) as nat);
        assert forall|i: int| 0 <= i < signed_decimal(v).len() implies signed_decimal(v)[i] != ASCII_SLASH by {
            if i > 0 {
                assert(signed_decimal(v)[i] == decimal((-v) as nat)[i - 1]);
            }
        }
    } else {
        lemma_decimal(v as nat);
    }
}

/// A path formatted by [`proc_fd_path`] reads back, through
/// [`parse_proc_fd_path`], as the process id and descriptor it was made from
/// (for every process id that fits in a `pid_t`).
pub proof fn lemma_proc_fd_path_round_trip(pid: nat, fd: int)
    requires
        pid <= i32::MAX,
        i32::MIN <= fd <= i32::MAX,
    ensures
        proc_fd_target(proc_fd_path_spec(pid, fd)) == Some((pid as int, fd)),
{
    let s = proc_fd_path_spec(pid, fd);
    let t = s.skip(1);
    let d = decimal(pid);
    let f = signed_decimal(fd);
    assert(signed_decimal(pid as int) == d);
    assert(s.skip(1).skip(1) =~= t.skip(1));
    assert(t[0] == 112u8);
    assert(trim_leading(t, ASCII_SLASH) == t);
    assert(trim_leading(s, ASCII_SLASH) == t);
    assert(t =~= ((proc_word().push(ASCII_SLASH) + d).push(ASCII_SLASH) + fd_word()).push(ASCII_SLASH) + f);
    lemma_no_slash_in_decimal(pid as int);
    lemma_no_slash_in_decimal(fd);
    lemma_split_append((proc_word().push(ASCII_SLASH) + d).push(ASCII_SLASH) + fd_word(), f, ASCII_SLASH);
    lemma_split_append(proc_word().push(ASCII_SLASH) + d, fd_word(), ASCII_SLASH);
    lemma_split_append(proc_word(), d, ASCII_SLASH);
    lemma_split_without_sep(proc_word(), ASCII_SLASH);
    lemma_split_without_sep(fd_word(), ASCII_SLASH);
    lemma_split_without_sep(d, ASCII_SLASH);
    lemma_split_without_sep(f, ASCII_SLASH);
    let parts = split_on(trim_leading(s, ASCII_SLASH), ASCII_SLASH);
    assert(parts =~= seq![proc_word(), d, fd_word(), f]);
    lemma_parse_signed_decimal(pid as int, i32::MIN as int, i32::MAX as int);
    lemma_parse_signed_decimal(fd, i32::MIN as int, i32::MAX as int);
}


/// Why a socket argument of the loader could not be resolved.
#[derive(Debug, Clone, Copy, PartialEq, Eq, Structural)]
pub enum ResolveError {
    /// The argument is neither a usable `/proc/<pid>/fd/<n>` path nor a numeric descriptor.
    Unrecognized,
    /// The numeric descriptor given is not a socket.
    NotASocket { fd: i32 },
}

/// Where the resolution of one socket argument of the loader stands.
#[derive(Debug, Clone, Copy, PartialEq, Eq, Structural)]
pub enum ResolveStep {
    /// Duplicate descriptor `fd` of process `pid` into this process
    /// (`pidfd_open` and `pidfd_getfd`), then call [`after_duplicate`].
    Duplicate { pid: i32, fd: i32 },
    /// Check that `fd` is a socket (`getsockopt(SO_TYPE)`), then call
    /// [`after_socket_check`]; `duplicated` tells whether `fd` came from a path.
    CheckSocket { fd: i32, duplicated: bool },
    /// The argument names this socket descriptor.
    Resolved { fd: i32 },
    /// The argument cannot be used.
    Failed(ResolveError),
}

/// First step for an argument: a `/proc/<pid>/fd/<n>` path is duplicated from
/// its process, a number is taken as a descriptor of this process, and
/// anything else is refused.
pub fn resolve_start(arg: &str) -> (step: ResolveStep)
    ensures
        step == match proc_fd_target(arg.spec_bytes()) {
            Some((pid, fd)) => ResolveStep::Duplicate { pid: pid as i32, fd: fd as i32 },
            None => match parse_i32_spec(arg.spec_bytes()) {
                Some(fd) => ResolveStep::CheckSocket { fd: fd as i32, duplicated: false },
                None => ResolveStep::Failed(ResolveError::Unrecognized),
            },
        },
{
    match parse_proc_fd_path(arg) {
        Some((pid, fd)) => ResolveStep::Duplicate { pid, fd },
        None => match parse_i32(arg.as_bytes()) {
            Some(fd) => ResolveStep::CheckSocket { fd, duplicated: false },
            None => ResolveStep::Failed(ResolveError::Unrecognized),
        },
    }
}

/// After the duplication: the descriptor obtained, or `None` when either
/// system call failed. A path whose descriptor cannot be had is refused like
/// any other argument that is not a number.
pub fn after_duplicate(duplicated: Option<i32>) -> (step: ResolveStep)
    ensures
        step == match duplicated {
            Some(fd) => ResolveStep::CheckSocket { fd, duplicated: true },
            None => ResolveStep::Failed(ResolveError::Unrecognized),
        },
{
    match duplicated {
        Some(fd) => ResolveStep::CheckSocket { fd, duplicated: true },
        None => ResolveStep::Failed(ResolveError::Unrecognized),
    }
}

/// After the socket check on `fd`.
pub fn after_socket_check(fd: i32, duplicated: bool, is_socket: bool) -> (step: ResolveStep)
    ensures
        step == if is_socket {
            ResolveStep::Resolved { fd }
        } else if duplicated {
            ResolveStep::Failed(ResolveError::Unrecognized)
        } else {
            ResolveStep::Failed(ResolveError::NotASocket { fd })
        },
{
    if is_socket {
        ResolveStep::Resolved { fd }
    } else if duplicated {
        ResolveStep::Failed(ResolveError::Unrecognized)
    } else {
        ResolveStep::Failed(ResolveError::NotASocket { fd })
    }
}

proof fn lemma_split_finds_sep(x: Seq<u8>, sep: u8)
    requires
        split_on(x, sep).len() > 1,
    ensures
        exists|i: int| 0 <= i < x.len() && x[i] == sep,
{
    if forall|i: int| 0 <= i < x.len() ==> x[i] != sep {
        lemma_split_without_sep(x, sep);
    }
}

/// An argument that reads as a `/proc/<pid>/fd/<n>` path never reads as a
/// number: once such a path fails to give a socket, the loader has no other
/// reading of it to fall back on.
pub proof fn lemma_proc_path_is_not_numeric(s: Seq<u8>)
    requires
        proc_fd_target(s) is Some,
    ensures
        parse_i32_spec(s) is None,
{
    let d = crate::decimal::signed_body(s);
    if s.len() > 0 && s[0] == ASCII_SLASH {
        assert(!crate::decimal::is_digit(d[0]));
    } else {
        assert(trim_leading(s, ASCII_SLASH) == s);
        lemma_split_finds_sep(s, ASCII_SLASH);
        let i = choose|i: int| 0 <= i < s.len() && s[i] == ASCII_SLASH;
        if d.len() < s.len() {
            assert(d[i - 1] == s[i]);
            assert(!crate::decimal::is_digit(d[i - 1]));
        } else {
            assert(!crate::decimal::is_digit(d[i]));
        }
    }
}

} // verus!
