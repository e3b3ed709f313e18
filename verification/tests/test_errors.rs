use sycret::errors::{wrap, QueryError};

fn engine_error() -> datafusion::error::DataFusionError {
    datafusion::error::DataFusionError::Plan("no such table".to_string())
}

fn array_error() -> arrow::error::ArrowError {
    arrow::error::ArrowError::ComputeError("overflow".to_string())
}

#[test]
fn wrap_keeps_a_value() {
    let r: Result<i32, QueryError> = wrap(Ok(7));
    assert!(matches!(r, Ok(7)));
    let r: Result<String, QueryError> = wrap(Ok("rows".to_string()));
    assert_eq!(r.unwrap(), "rows");
}

#[test]
fn wrap_carries_an_engine_error_over() {
    let r: Result<i32, QueryError> = wrap(Err(engine_error()));
    match r {
        Err(QueryError::ExecutionError(e)) => {
            assert_eq!(format!("{:?}", e), format!("{:?}", engine_error()))
        }
        _ => panic!("an engine error stays an engine error"),
    }
}

#[test]
fn from_picks_the_variant() {
    assert!(matches!(QueryError::from(engine_error()), QueryError::ExecutionError(_)));
    assert!(matches!(QueryError::from(array_error()), QueryError::ArrowError(_)));
}

#[test]
fn message_of_each_variant() {
    assert_eq!(QueryError::Common("plain".to_string()).message(), "plain");
    assert_eq!(QueryError::Common(String::new()).message(), "");
    assert_eq!(
        QueryError::from(engine_error()).message(),
        format!("DataFusion error: {:?}", engine_error())
    );
    assert_eq!(
        QueryError::from(array_error()).message(),
        format!("Arrow error: {:?}", array_error())
    );
    assert!(QueryError::from(engine_error()).message().contains("no such table"));
    assert!(QueryError::from(array_error()).message().contains("overflow"));
}
