//! A transport- and device-agnostic firmware update client.
//!
//! A device reports its [`Status`] to an update service, which answers with a [`Command`]: wait,
//! you are in sync, write this block, or swap to the written image. The [`updater`] decides, round
//! by round, what to do on the device; [`service::InMemory`] is a complete service that serves one
//! image; [`codec`] is the wire format; [`device`] and [`service`] hold the two ends of a framed
//! serial link.

pub mod codec;
pub mod device;
pub mod protocol;
pub mod rounds;
pub mod service;
pub mod traits;
pub mod updater;

pub use codec::{CodecError, FRAME_SIZE};
pub use protocol::{Bytes, Command, Status, UpdateStatus};
pub use traits::{FirmwareStatus, FirmwareVersion, UpdateService, VersionBuf};
pub use updater::{DeviceStatus, Error, FirmwareUpdater, Reply, Step, UpdaterConfig, UpdaterState};
