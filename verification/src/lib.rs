//! Conversion of metric snapshots (counters, gauges, histograms, summaries)
//! into the remote-write wire format: a canonical, deterministically ordered
//! list of time series, encoded as the protocol's binary message and
//! compressed with snappy before transport.

pub mod codec;
pub mod convert;
pub mod order;
pub mod types;

pub use codec::EncodeError;
pub use convert::get_timestamp;
pub use convert::Bucket;
pub use convert::ConvertError;
pub use convert::Metric;
pub use convert::MetricFamily;
pub use convert::MetricValue;
pub use convert::Quantile;
pub use types::ExtraLabel;
pub use types::Label;
pub use types::Sample;
pub use types::TimeSeries;
pub use types::WriteRequest;
pub use types::CONTENT_TYPE;
pub use types::COUNT_SUFFIX;
pub use types::HEADER_NAME_REMOTE_WRITE_VERSION;
pub use types::LABEL_NAME;
pub use types::REMOTE_WRITE_VERSION_01;
pub use types::SUM_SUFFIX;
pub use types::TOTAL_SUFFIX;
