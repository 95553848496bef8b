//! Data and protocol contracts shared by the parts of a streaming dataflow
//! engine: logical time, dataflow descriptions, result finishing and peeks.

pub mod connector;
pub mod dataflow;
pub mod datum;
pub mod finishing;
pub mod frontier;
pub mod peek;
pub mod relation;
pub mod sorting;
pub mod time;

pub use connector::{
    HostAddr, KafkaSinkConnector, KafkaSourceConnector, LocalSourceConnector, NetAddr,
    SinkConnector, SourceConnector, TailChannel, TailSinkConnector,
};
pub use dataflow::{AsOfLoosened, Dataflow, Sink, SinkHasNoShape, Source, View};
pub use datum::{Datum, DatumView, Row};
pub use finishing::{compare_columns, ColumnOrder, FinishError, RowSetFinishing};
pub use relation::{
    BinaryFunc, ColumnType, RelationDesc, RelationExpr, RelationType, ScalarExpr, ScalarType,
    UnaryFunc,
};
pub use peek::{
    PeekAction, PeekCanceled, PeekEvent, PeekOutcome, PeekResponse, PeekState, PeekWhen,
};
pub use time::{Diff, InputClock, InputViolation, LocalInput, Timestamp, Update};
