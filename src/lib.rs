pub mod digits;
pub mod fixed_decimal;
pub mod processor;
pub mod spam_tolerant_reader;
pub mod transaction;

pub use fixed_decimal::ErrorKind as FixedDecimalError;
pub use fixed_decimal::FixedDecimal;
pub use fixed_decimal::MAX_DISP_LEN as FixedDecimalMAXDISPLEN;

pub use transaction::ErrorKind as TransactionError;
pub use transaction::{PaymentsTransaction, TransactionPayload};

pub use processor::{PaymentsProcessor, ProcessTransactionError};

pub use spam_tolerant_reader::ErrorKind as SpamReaderError;
pub use spam_tolerant_reader::{ChunkFramer, FrameStep, SpamTolerantReader};
