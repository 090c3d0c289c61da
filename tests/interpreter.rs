use rsbf::executor::Error as CompileError;
use rsbf::{run_simple, ArrayData, Data, Error, Executor, Input, Output, ResizableData, StdinError};

struct Bytes {
    data: Vec<u8>,
    pos: usize,
}

impl Bytes {
    fn of(data: &[u8]) -> Self {
        Bytes { data: data.to_vec(), pos: 0 }
    }
}

impl Input for Bytes {
    type ErrorType = StdinError;

    fn read(&mut self) -> Result<u8, StdinError> {
        if self.pos < self.data.len() {
            self.pos += 1;
            Ok(self.data[self.pos - 1])
        } else {
            Err(StdinError::NoMoreInput)
        }
    }
}

struct Sink(Vec<u8>);

impl Output for Sink {
    fn write(&mut self, byte: u8) {
        self.0.push(byte);
    }
}

fn run_on(code: &[u8], input: &[u8]) -> (Result<usize, Error<StdinError>>, Vec<u8>) {
    let mut i = Bytes::of(input);
    let mut o = Sink(Vec::new());
    let r = run_simple(code, &mut i, &mut o);
    (r, o.0)
}

#[test]
fn plus_plus_dot_writes_two() {
    let (r, out) = run_on(b"++.", b"");
    assert_eq!(out, vec![2]);
    assert_eq!(r, Ok(2));
}

#[test]
fn loop_body_runs_once() {
    let (r, out) = run_on(b"+[-]", b"");
    assert_eq!(out, Vec::<u8>::new());
    assert_eq!(r, Ok(4));
}

#[test]
fn loop_runs_once_then_reports_cell() {
    let (r, out) = run_on(b"+[-].", b"");
    assert_eq!(out, vec![0]);
    assert_eq!(r, Ok(5));
}

#[test]
fn echo_one_byte() {
    let (r, out) = run_on(b",.", &[65]);
    assert_eq!(out, vec![65]);
    assert_eq!(r, Ok(2));
}

#[test]
fn exhausted_input_fails_without_output() {
    let (r, out) = run_on(b",.", b"");
    assert_eq!(out, Vec::<u8>::new());
    assert_eq!(r, Err(Error::Input(StdinError::NoMoreInput)));
}

#[test]
fn lone_open_bracket() {
    assert_eq!(Executor::new(b"[").err(), Some(CompileError::UnmatchedLoopStart(0)));
    let (r, _) = run_on(b"[", b"");
    assert_eq!(r, Err(Error::Executor(CompileError::UnmatchedLoopStart(0))));
}

#[test]
fn lone_close_bracket() {
    assert_eq!(Executor::new(b"]").err(), Some(CompileError::UnmatchedLoopEnd(0)));
    let (r, _) = run_on(b"]", b"");
    assert_eq!(r, Err(Error::Executor(CompileError::UnmatchedLoopEnd(0))));
}

#[test]
fn unmatched_offsets_count_source_bytes() {
    assert_eq!(Executor::new(b"ab]").err(), Some(CompileError::UnmatchedLoopEnd(2)));
    assert_eq!(Executor::new(b"+]]").err(), Some(CompileError::UnmatchedLoopEnd(1)));
    assert_eq!(Executor::new(b"[]]]").err(), Some(CompileError::UnmatchedLoopEnd(2)));
    assert_eq!(Executor::new(b"++[[]").err(), Some(CompileError::UnmatchedLoopStart(2)));
    assert_eq!(Executor::new(b"[]x[").err(), Some(CompileError::UnmatchedLoopStart(3)));
    assert_eq!(Executor::new(b"[[[]]").err(), Some(CompileError::UnmatchedLoopStart(0)));
}

#[test]
fn balanced_sources_compile() {
    assert!(Executor::new(b"").is_ok());
    assert!(Executor::new(b"[]").is_ok());
    assert!(Executor::new(b"[[]][]").is_ok());
    assert!(Executor::new(b"+[>[-]<-]").is_ok());
}

#[test]
fn increment_wraps_to_zero() {
    let code = vec![b'+'; 256];
    let mut code = code;
    code.push(b'.');
    let (r, out) = run_on(&code, b"");
    assert_eq!(out, vec![0]);
    assert_eq!(r, Ok(2));
    let (_, out) = run_on(b"-.", b"");
    assert_eq!(out, vec![255]);
    let (_, out) = run_on(b",+.", &[255]);
    assert_eq!(out, vec![0]);
    let (_, out) = run_on(b"---.", &[]);
    assert_eq!(out, vec![253]);
}

#[test]
fn negative_index_does_not_alias() {
    let mut d = ResizableData::new();
    *d.get(-1) = 7;
    assert_eq!(*d.get(-1), 7);
    assert_eq!(*d.get(0), 0);
    assert_eq!(*d.get(1), 0);
    *d.get(1) = 9;
    assert_eq!(*d.get(-1), 7);
    assert_eq!(*d.get(-2000), 0);
    assert_eq!(*d.get(i32::MIN), 0);
    let (_, out) = run_on(b"<+++.>.>.", b"");
    assert_eq!(out, vec![3, 0, 0]);
}

#[test]
fn comments_do_not_change_output() {
    let (_, a) = run_on(b"++[>+++<-]>.", b"");
    let (_, b) = run_on(b"a+ +[x>+q+\n+<-]>!.", b"");
    assert_eq!(a, vec![6]);
    assert_eq!(a, b);
}

#[test]
fn nested_loops_multiply() {
    let (r, out) = run_on(b"++++[>+++[>+<-]<-]>>.", b"");
    assert_eq!(out, vec![12]);
    assert!(r.is_ok());
}

#[test]
fn run_counts_folded_steps() {
    let e = Executor::new(b">>><<<").unwrap();
    let mut d = ResizableData::new();
    let mut i = Bytes::of(b"");
    let mut o = Sink(Vec::new());
    assert_eq!(e.run(&mut d, &mut i, &mut o), Ok(2));
}

#[test]
fn array_tape_is_bounds_checked() {
    let mut d = ArrayData::new();
    assert!(d.in_bounds(0));
    assert!(d.in_bounds(9999));
    assert!(!d.in_bounds(10000));
    assert!(!d.in_bounds(-1));
    *d.get(5) = 4;
    assert_eq!(*d.get(5), 4);
    let e = Executor::new(b"<+").unwrap();
    let mut d = ArrayData::new();
    let mut i = Bytes::of(b"");
    let mut o = Sink(Vec::new());
    assert_eq!(e.run(&mut d, &mut i, &mut o), Err(Error::CursorOutOfRange));
    let e = Executor::new(b"+.").unwrap();
    let mut d = ArrayData::new();
    assert_eq!(e.run(&mut d, &mut i, &mut o), Ok(2));
    assert_eq!(o.0, vec![1]);
}

#[test]
fn stdin_error_message() {
    assert_eq!(StdinError::NoMoreInput.message(), "No more input");
}

#[test]
fn default_tapes_start_at_zero() {
    let mut r = ResizableData::default();
    assert_eq!(*r.get(-3), 0);
    assert_eq!(*r.get(3), 0);
    let mut a = ArrayData::default();
    assert_eq!(*a.get(9999), 0);
}

#[test]
fn right_then_left_returns_to_same_cell() {
    let (r, out) = run_on(b"+>++>+++<<.>.>.<<<.", b"");
    assert_eq!(out, vec![1, 2, 3, 0]);
    assert!(r.is_ok());
}

#[test]
fn exact_counts_of_short_programs() {
    assert_eq!(run_on(b"-+.", b""), (Ok(3), vec![0]));
    assert_eq!(run_on(b"-.", b""), (Ok(2), vec![255]));
    assert_eq!(run_on(b"[.]", b""), (Ok(1), vec![]));
    assert_eq!(run_on(b"", b""), (Ok(0), vec![]));
}

#[test]
fn failed_read_keeps_earlier_work() {
    let e = Executor::new(b"+.>++,.").unwrap();
    let mut d = ResizableData::new();
    let mut i = Bytes::of(b"");
    let mut o = Sink(Vec::new());
    assert_eq!(e.run(&mut d, &mut i, &mut o), Err(Error::Input(StdinError::NoMoreInput)));
    assert_eq!(o.0, vec![1]);
    assert_eq!(*d.get(0), 1);
    assert_eq!(*d.get(1), 2);
}

#[test]
fn compile_error_reads_and_writes_nothing() {
    let (r, out) = run_on(b".[,", b"x");
    assert_eq!(r, Err(Error::Executor(CompileError::UnmatchedLoopStart(1))));
    assert!(out.is_empty());
}
