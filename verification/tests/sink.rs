use datalog::predicates::{Pred, Stmt, ID};
use datalog::writer::{Buffer, IoError, IoOperation, Writer};

/// A sink with room for a fixed number of lines.
struct Bounded {
    lines: Vec<String>,
    room: usize,
}

impl Writer for Bounded {
    fn add(&mut self, statement: Stmt) -> Result<(), IoError> {
        if self.lines.len() == self.room {
            return Err(IoError { operation: IoOperation::Write, os_code: Some(28) });
        }
        self.lines.push(statement.render_line());
        Ok(())
    }
}

fn fact(name: &str, value: &str) -> Stmt {
    Stmt::fact(Pred::new(name, vec![ID::Literal(value.to_string())]).unwrap()).unwrap()
}

fn add_all(sink: &mut dyn Writer, stmts: Vec<Stmt>) -> Result<usize, IoError> {
    let mut added = 0;
    for stmt in stmts {
        sink.add(stmt)?;
        added += 1;
    }
    Ok(added)
}

#[test]
fn sinks_share_one_interface() {
    let mut buffer = Buffer::new();
    assert_eq!(add_all(&mut buffer, vec![fact("a", "1"), fact("b", "2")]), Ok(2));
    assert_eq!(buffer.as_str(), "a('1').\nb('2').\n");

    let mut bounded = Bounded { lines: Vec::new(), room: 1 };
    let error = add_all(&mut bounded, vec![fact("a", "1"), fact("b", "2")]).unwrap_err();
    assert_eq!(error.operation, IoOperation::Write);
    assert_eq!(error.os_code, Some(28));
    assert_eq!(bounded.lines, vec!["a('1').\n".to_string()]);
}

#[test]
fn io_errors_compare_by_value() {
    let create = IoError { operation: IoOperation::Create, os_code: None };
    let flush = IoError { operation: IoOperation::Flush, os_code: None };
    assert_ne!(create, flush);
    assert_eq!(create, IoError { operation: IoOperation::Create, os_code: None });
}

#[test]
fn empty_buffer_releases_empty_text() {
    assert_eq!(Buffer::new().into_string(), "");
}
