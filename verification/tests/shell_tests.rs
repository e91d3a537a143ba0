use tsos_kernel::command::{finish_cmd, run_cmd, After, Reply};
use tsos_kernel::parse::{parse_dec_exec, split_lines, split_whitespace, trim, utrim_exec};
use tsos_kernel::session::{finish_pipe, LineEditor, LinePlan, PipeSink, PipeSource, Shell};
use tsos_kernel::shell::{
    parse_echo_args, parse_redirects, resolve_path, show_about, show_cmd_help, show_help, show_welcome_screen,
    EchoResult, Request, ABOUT_TEXT, HELP_TEXT, WELCOME_TEXT,
};
use tsos_kernel::syscall::ERR;

fn plan(line: &str) -> tsos_kernel::command::CmdPlan {
    run_cmd(line.as_bytes(), b"/home", &None, &None)
}

fn write(s: &str) -> Request {
    Request::Write(s.as_bytes().to_vec())
}

#[test]
fn resolve_path_cases() {
    assert_eq!(resolve_path(b"/", b"docs"), b"/docs".to_vec());
    assert_eq!(resolve_path(b"/a/b", b".."), b"/a".to_vec());
    assert_eq!(resolve_path(b"/a/b/", b"../c/./d"), b"/a/c/d".to_vec());
    assert_eq!(resolve_path(b"/", b".."), b"/".to_vec());
    assert_eq!(resolve_path(b"/x", b"  /abs/p  "), b"/abs/p".to_vec());
    assert_eq!(resolve_path(b"/x", b""), b"/x".to_vec());
    assert_eq!(resolve_path(b"/x/y", b"../.."), b"/".to_vec());
}

#[test]
fn resolving_twice_is_resolving_once() {
    for (cwd, p) in [(&b"/a/b"[..], &b"../c/./d"[..]), (b"/", b"x/../y"), (b"/x", b"/abs/./p"), (b"/q", b"..")] {
        let once = resolve_path(cwd, p);
        assert_eq!(resolve_path(cwd, &once), once);
    }
    // Whitespace inside a directory name does not matter.
    let once = resolve_path(b"/a b", b"c");
    assert_eq!(once, b"/a b/c".to_vec());
    assert_eq!(resolve_path(b"/a b", &once), once);
    // Relative paths come out without "." or ".." components.
    let r = resolve_path(b"/a/b", b"./../c/../d/.");
    assert_eq!(r, b"/a/d".to_vec());
}

#[test]
fn trim_and_words() {
    assert_eq!(trim(b" \t ab c\r\n"), b"ab c".to_vec());
    assert_eq!(split_whitespace(b"  ls   -l\tx "), vec![b"ls".to_vec(), b"-l".to_vec(), b"x".to_vec()]);
    assert_eq!(split_whitespace("a\u{00A0}b\u{3000}c".as_bytes()), vec![b"a".to_vec(), b"b".to_vec(), b"c".to_vec()]);
    assert_eq!(utrim_exec("\u{2003} x \u{0085}".as_bytes()), b"x".to_vec());
    assert!(split_whitespace(b"   ").is_empty());
}

#[test]
fn lines_like_str_lines() {
    assert_eq!(split_lines(b"a\nb\r\nc"), vec![b"a".to_vec(), b"b".to_vec(), b"c".to_vec()]);
    assert_eq!(split_lines(b"a\n"), vec![b"a".to_vec()]);
    assert_eq!(split_lines(b"\n\n"), vec![b"".to_vec(), b"".to_vec()]);
    assert!(split_lines(b"").is_empty());
    assert_eq!(split_lines(b"x\r"), vec![b"x\r".to_vec()]);
}

#[test]
fn decimal_parsing() {
    assert_eq!(parse_dec_exec(b"42", u32::MAX as u64), Some(42));
    assert_eq!(parse_dec_exec(b"+7", u32::MAX as u64), Some(7));
    assert_eq!(parse_dec_exec(b"+", u32::MAX as u64), None);
    assert_eq!(parse_dec_exec(b"", u32::MAX as u64), None);
    assert_eq!(parse_dec_exec(b"4294967296", u32::MAX as u64), None);
    assert_eq!(parse_dec_exec(b"4294967295", u32::MAX as u64), Some(4294967295));
    assert_eq!(parse_dec_exec(b"1x", u32::MAX as u64), None);
    assert_eq!(parse_dec_exec(b"-1", u32::MAX as u64), None);
    assert_eq!(parse_dec_exec(b"5", 3), None);
    assert_eq!(parse_dec_exec(b"3", 3), Some(3));
    assert_eq!(parse_dec_exec(b"10", 9), None);
}

#[test]
fn echo_parsing() {
    assert_eq!(parse_echo_args(b"echo \"hi there\""), Some(EchoResult::ToStdout(b"hi there".to_vec())));
    assert_eq!(
        parse_echo_args(b"echo hi > out.txt"),
        Some(EchoResult::ToFile { content: b"hi".to_vec(), path: b"out.txt".to_vec() })
    );
    assert_eq!(parse_echo_args(b"echo hi >  "), Some(EchoResult::ToStdout(b"hi >".to_vec())));
    assert_eq!(parse_echo_args(b"say hi"), None);
}

#[test]
fn redirect_parsing() {
    let (c, o, i) = parse_redirects(b" ls / > out.txt extra");
    assert_eq!(c, b"ls /".to_vec());
    assert_eq!(o, Some(b"out.txt".to_vec()));
    assert_eq!(i, None);
    let (c, o, i) = parse_redirects(b"cat < in.txt");
    assert_eq!(c, b"cat".to_vec());
    assert_eq!(o, None);
    assert_eq!(i, Some(b"in.txt".to_vec()));
    let (c, o, _) = parse_redirects(b"pwd >");
    assert_eq!(c, b"pwd".to_vec());
    assert_eq!(o, None);
}

#[test]
fn help_texts() {
    assert_eq!(show_cmd_help(b"ls"), Some(b"\r\n  ls [PATH] - List directory (default: cwd)\r\n\r\n".to_vec()));
    assert_eq!(show_cmd_help(b"welcome"), Some(b"\r\n  about - Strongest Node philosophy and status\r\n\r\n".to_vec()));
    assert_eq!(show_cmd_help(b"frobnicate"), None);
    assert_eq!(show_help(), HELP_TEXT.as_bytes().to_vec());
    assert_eq!(show_about(), ABOUT_TEXT.as_bytes().to_vec());
    assert_eq!(show_welcome_screen(), WELCOME_TEXT.as_bytes().to_vec());
    assert!(HELP_TEXT.starts_with("\r\n  TS-OS Commands\r\n"));
}

#[test]
fn run_cmd_help_and_unknown() {
    let p = plan("help cat");
    assert!(p.handled);
    assert_eq!(p.writes, vec![write("\r\n  cat PATH - Read and display file contents\r\n\r\n")]);
    assert_eq!(p.query, None);
    let p = plan("help nope");
    assert_eq!(p.writes, vec![write("  Unknown command: nope\r\n")]);
    let p = plan("frob");
    assert_eq!(p.writes, vec![write("unknown: "), write("frob"), write("\r\n")]);
    let p = plan("   ");
    assert!(!p.handled);
}

#[test]
fn run_cmd_queries() {
    let p = plan("ls");
    assert_eq!(p.query, Some(Request::Ls { path: b"/home".to_vec(), out_len: 512 }));
    assert_eq!(p.after, After::Show { redirect: None });
    let p = plan("cat notes");
    assert_eq!(p.query, Some(Request::Cat { path: b"/home/notes".to_vec(), out_len: 512 }));
    let p = plan("cat");
    assert_eq!(p.writes, vec![write("cat <path>\r\n")]);
    let p = plan("touch a");
    assert_eq!(p.query, Some(Request::Touch(b"/home/a".to_vec())));
    assert_eq!(p.after, After::Done { fail: "touch failed\r\n" });
    let p = plan("mkdir");
    assert_eq!(p.writes, vec![write("mkdir <path>\r\n")]);
    let p = plan("rm x");
    assert_eq!(p.query, Some(Request::Rm(b"/home/x".to_vec())));
    let p = plan("spawn");
    assert_eq!(p.query, Some(Request::Spawn));
    let p = plan("getpid");
    assert_eq!(p.query, Some(Request::GetPid));
    let p = plan("wait");
    assert_eq!(p.query, Some(Request::Wait));
    let p = plan("exit");
    assert_eq!(p.query, Some(Request::Exit(0)));
    let p = plan("shutdown");
    assert_eq!(p.query, Some(Request::Shutdown));
    let p = plan("ps");
    assert_eq!(p.query, Some(Request::Ps { out_len: 512 }));
}

#[test]
fn run_cmd_kill_reads_pid() {
    let p = plan("kill 3");
    assert_eq!(p.query, Some(Request::Kill { pid: 3, sig: 9 }));
    assert_eq!(p.after, After::Killed);
    let p = plan("kill abc");
    assert_eq!(p.writes, vec![write("kill: invalid pid\r\n")]);
    let p = plan("kill");
    assert_eq!(p.writes, vec![write("kill <pid>\r\n")]);
}

#[test]
fn run_cmd_echo_and_pwd() {
    let p = plan("echo \"hi\"");
    assert_eq!(p.writes, vec![write("hi\r\n")]);
    let p = run_cmd(b"echo hi", b"/home", &Some(b"f".to_vec()), &None);
    assert_eq!(p.writes, vec![Request::WriteFile { path: b"/home/f".to_vec(), data: b"hi".to_vec() }]);
    let p = plan("echo x > /tmp/y");
    assert_eq!(p.writes, vec![Request::WriteFile { path: b"/tmp/y".to_vec(), data: b"x".to_vec() }]);
    let p = plan("pwd");
    assert_eq!(p.writes, vec![write("/home\r\n")]);
}

#[test]
fn run_cmd_head_tail_wc() {
    let p = plan("head log 3");
    assert_eq!(p.query, Some(Request::Cat { path: b"/home/log".to_vec(), out_len: 512 }));
    assert_eq!(p.after, After::Head { n: 3 });
    let p = plan("tail log");
    assert_eq!(p.after, After::Tail { n: 10 });
    let p = plan("wc log");
    assert_eq!(p.after, After::Wc { path: b"/home/log".to_vec() });
    let p = plan("wc");
    assert_eq!(p.writes, vec![write("wc <file>\r\n")]);
}

#[test]
fn run_cmd_cat_input_redirect() {
    let p = run_cmd(b"cat", b"/", &None, &Some(b"in".to_vec()));
    assert_eq!(p.query, Some(Request::Cat { path: b"/in".to_vec(), out_len: 512 }));
}

#[test]
fn finish_cmd_messages() {
    let r = |v: u64| Reply { value: v, bytes: vec![] };
    assert_eq!(finish_cmd(&After::Spawned, &r(ERR)), vec![write("spawn failed\r\n")]);
    assert_eq!(finish_cmd(&After::Spawned, &r(1)), vec![write("spawned\r\n")]);
    assert_eq!(finish_cmd(&After::Done { fail: "rm failed\r\n" }, &r(0)), vec![write("rm failed\r\n")]);
    assert_eq!(finish_cmd(&After::Done { fail: "x" }, &r(1)), vec![write("ok\r\n")]);
    assert_eq!(finish_cmd(&After::Pid, &r(12)), vec![write("12\r\n")]);
    assert_eq!(finish_cmd(&After::Pid, &r(ERR)), vec![write("getpid failed\r\n")]);
    assert_eq!(finish_cmd(&After::Waited, &r((3 << 8) | 7)), vec![write("child 3 exited with status 7\r\n")]);
    assert_eq!(finish_cmd(&After::Waited, &r(ERR)), vec![write("wait failed (no children or not a parent)\r\n")]);
    assert_eq!(finish_cmd(&After::Killed, &r(0)), vec![write("ok\r\n")]);
    assert_eq!(finish_cmd(&After::Killed, &r(ERR)), vec![write("kill failed\r\n")]);
    assert_eq!(finish_cmd(&After::Nothing, &r(0)), vec![]);
}

#[test]
fn full_reply_buffer_loses_its_last_byte() {
    let full = Reply { value: 512, bytes: vec![b'a'; 512] };
    let mut shown = vec![b'a'; 511];
    shown.push(0);
    assert_eq!(finish_cmd(&After::Show { redirect: None }, &full), vec![Request::Write(shown)]);
    let short = Reply { value: 511, bytes: vec![b'a'; 511] };
    assert_eq!(finish_cmd(&After::Show { redirect: None }, &short), vec![Request::Write(vec![b'a'; 511])]);
}

#[test]
fn finish_cmd_text_tools() {
    let text = Reply { value: 0, bytes: b"one two\nthree\nfour five six\n".to_vec() };
    assert_eq!(finish_cmd(&After::Wc { path: b"/f".to_vec() }, &text), vec![write("3\t6\t28\t/f\r\n")]);
    assert_eq!(finish_cmd(&After::Head { n: 2 }, &text), vec![write("one two\r\nthree\r\n")]);
    assert_eq!(finish_cmd(&After::Tail { n: 1 }, &text), vec![write("four five six\r\n")]);
    assert_eq!(finish_cmd(&After::Tail { n: 9 }, &text), vec![write("one two\r\nthree\r\nfour five six\r\n")]);
    let bad = Reply { value: 0, bytes: vec![0xFF] };
    assert_eq!(finish_cmd(&After::Show { redirect: None }, &bad), vec![write("")]);
    assert_eq!(
        finish_cmd(&After::Show { redirect: Some(b"/o".to_vec()) }, &text),
        vec![Request::WriteFile { path: b"/o".to_vec(), data: b"one two\nthree\nfour five six\n".to_vec() }]
    );
}

#[test]
fn line_editor_types_and_erases() {
    let history: Vec<Vec<u8>> = vec![];
    let mut ed = LineEditor::new(0);
    let f = ed.feed(b'l', &history);
    assert_eq!(f.echo, b"l".to_vec());
    assert!(!f.done);
    ed.feed(b'x', &history);
    let f = ed.feed(0x7F, &history);
    assert_eq!(f.echo, b"\x08 \x08".to_vec());
    ed.feed(b's', &history);
    let f = ed.feed(b'\r', &history);
    assert!(f.done);
    assert_eq!(ed.line, b"ls".to_vec());
    let f = ed.feed(0xC3, &history);
    assert!(f.echo.is_empty());
}

#[test]
fn line_editor_recalls_history() {
    let history: Vec<Vec<u8>> = vec![b"first".to_vec(), b"second".to_vec()];
    let mut ed = LineEditor::new(2);
    ed.feed(0x1B, &history);
    ed.feed(b'[', &history);
    let f = ed.feed(b'A', &history);
    assert_eq!(f.echo, b"\r> second".to_vec());
    assert_eq!(ed.line, b"second".to_vec());
    ed.feed(0x1B, &history);
    ed.feed(b'[', &history);
    ed.feed(b'A', &history);
    assert_eq!(ed.line, b"first".to_vec());
    ed.feed(0x1B, &history);
    ed.feed(b'[', &history);
    ed.feed(b'A', &history);
    assert_eq!(ed.line, b"first".to_vec());
    ed.feed(0x1B, &history);
    ed.feed(b'[', &history);
    ed.feed(b'B', &history);
    assert_eq!(ed.line, b"second".to_vec());
    ed.feed(0x1B, &history);
    ed.feed(b'[', &history);
    let f = ed.feed(b'B', &history);
    assert_eq!(ed.line, Vec::<u8>::new());
    assert_eq!(f.echo, b"\r> ".to_vec());
}

#[test]
fn line_editor_stops_at_127_bytes() {
    let history: Vec<Vec<u8>> = vec![];
    let mut ed = LineEditor::new(0);
    for i in 0..127 {
        let f = ed.feed(b'a', &history);
        assert_eq!(f.done, i == 126);
    }
    assert_eq!(ed.line.len(), 127);
}

#[test]
fn shell_plans_lines() {
    let mut sh = Shell::new();
    assert_eq!(sh.plan_line(b"   "), LinePlan::Empty);
    assert!(sh.history.is_empty());
    match sh.plan_line(b"cd docs") {
        LinePlan::Cd { path } => assert_eq!(path, b"/docs".to_vec()),
        other => panic!("unexpected {:?}", other),
    }
    assert_eq!(sh.finish_cd(b"/docs".to_vec(), 1), vec![]);
    assert_eq!(sh.cwd, b"/docs".to_vec());
    assert_eq!(sh.finish_cd(b"/x".to_vec(), 0), vec![write("cd failed\r\n")]);
    assert_eq!(sh.cwd, b"/docs".to_vec());
    match sh.plan_line(b"cd") {
        LinePlan::Cd { path } => assert_eq!(path, b"/".to_vec()),
        other => panic!("unexpected {:?}", other),
    }
    match sh.plan_line(b"ls > out") {
        LinePlan::Cmd(p) => {
            assert_eq!(p.query, Some(Request::Ls { path: b"/docs".to_vec(), out_len: 512 }));
            assert_eq!(p.after, After::Show { redirect: Some(b"/docs/out".to_vec()) });
        },
        other => panic!("unexpected {:?}", other),
    }
    assert_eq!(sh.history.len(), 3);
    assert_eq!(sh.history[2], b"ls > out".to_vec());
}

#[test]
fn shell_history_keeps_sixteen() {
    let mut sh = Shell::new();
    for i in 0..20u8 {
        let line = [b'a' + i];
        sh.plan_line(&line);
    }
    assert_eq!(sh.history.len(), 16);
    assert_eq!(sh.history[0], vec![b'a' + 4]);
    assert_eq!(sh.history[15], vec![b'a' + 19]);
}

#[test]
fn shell_plans_pipes() {
    let mut sh = Shell::new();
    match sh.plan_line(b"ls / | cat out.txt") {
        LinePlan::Pipe { source, sink } => {
            assert_eq!(source, PipeSource::Query(Request::Ls { path: b"/".to_vec(), out_len: 512 }));
            assert_eq!(sink, PipeSink::File(b"/out.txt".to_vec()));
        },
        other => panic!("unexpected {:?}", other),
    }
    match sh.plan_line(b"echo \"hey\" | cat") {
        LinePlan::Pipe { source, sink } => {
            assert_eq!(source, PipeSource::Data(b"hey".to_vec()));
            assert_eq!(sink, PipeSink::Stdout);
        },
        other => panic!("unexpected {:?}", other),
    }
    assert_eq!(sh.plan_line(b"ls | cat"), LinePlan::PipeUnsupported);
    assert_eq!(sh.plan_line(b"ps | "), LinePlan::Idle);
    match sh.plan_line(b"ps | more") {
        LinePlan::Pipe { sink, .. } => assert_eq!(sink, PipeSink::Unsupported),
        other => panic!("unexpected {:?}", other),
    }
    assert_eq!(finish_pipe(&PipeSink::Unsupported, &vec![]), vec![write("pipe: right must be 'cat [file]' (e.g. ls | cat out.txt)\r\n")]);
    assert_eq!(finish_pipe(&PipeSink::Stdout, &b"abc".to_vec()), vec![write("abc")]);
    assert_eq!(
        finish_pipe(&PipeSink::File(b"/f".to_vec()), &b"abc".to_vec()),
        vec![Request::WriteFile { path: b"/f".to_vec(), data: b"abc".to_vec() }]
    );
    let mut full = vec![b'x'; 511];
    full.push(0);
    assert_eq!(
        finish_pipe(&PipeSink::File(b"/f".to_vec()), &vec![b'x'; 512]),
        vec![Request::WriteFile { path: b"/f".to_vec(), data: full.clone() }]
    );
    assert_eq!(finish_pipe(&PipeSink::Stdout, &vec![b'x'; 512]), vec![Request::Write(full)]);
}
