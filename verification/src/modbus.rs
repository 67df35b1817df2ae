use vstd::prelude::*;

verus! {

/// A Modbus exception, as a SunSpec register map reports a refused request.
#[derive(Debug, Clone, Copy, PartialEq, Eq, Structural)]
pub enum ModbusException {
    IllegalFunction,
    IllegalDataAddress,
    IllegalDataValue,
    ServerDeviceFailure,
    Acknowledge,
    ServerDeviceBusy,
    MemoryParityError,
    GatewayPathUnavailable,
    GatewayTargetDevice,
}

/// The exception code that the Modbus application protocol assigns to each exception.
pub open spec fn exception_code(e: ModbusException) -> u8 {
    match e {
        ModbusException::IllegalFunction => 0x01,
        ModbusException::IllegalDataAddress => 0x02,
        ModbusException::IllegalDataValue => 0x03,
        ModbusException::ServerDeviceFailure => 0x04,
        ModbusException::Acknowledge => 0x05,
        ModbusException::ServerDeviceBusy => 0x06,
        ModbusException::MemoryParityError => 0x08,
        ModbusException::GatewayPathUnavailable => 0x0A,
        ModbusException::GatewayTargetDevice => 0x0B,
    }
}

impl ModbusException {
    /// The one-byte code sent in an exception response.
    pub fn code(&self) -> (c: u8)
        ensures
            c == exception_code(*self),
    {
        match self {
            ModbusException::IllegalFunction => 0x01,
            ModbusException::IllegalDataAddress => 0x02,
            ModbusException::IllegalDataValue => 0x03,
            ModbusException::ServerDeviceFailure => 0x04,
            ModbusException::Acknowledge => 0x05,
            ModbusException::ServerDeviceBusy => 0x06,
            ModbusException::MemoryParityError => 0x08,
            ModbusException::GatewayPathUnavailable => 0x0A,
            ModbusException::GatewayTargetDevice => 0x0B,
        }
    }
}

/// Distinct exceptions are sent with distinct codes, so a client can always
/// tell which exception a response carries.
pub proof fn lemma_exception_code_injective(a: ModbusException, b: ModbusException)
    ensures
        exception_code(a) == exception_code(b) <==> a == b,
{
}

} // verus!
