use vstd::prelude::*;

verus! {

/// An enumeration of all potential motors that can be controlled via the
/// Motor HAT or the Servo HAT.
#[derive(Debug, Hash, PartialEq, Eq, Structural)]
pub enum Motor {
    Motor1,
    Motor2,
    Motor3,
    Motor4,
    Stepper1,
    Stepper2,
    Servo,
}

/// Errors of the DC motor driver.
#[derive(Debug, Clone, Copy, PartialEq, Eq, Structural)]
pub enum MotorError {
    /// An error occurred initializing the I2C bus.
    I2cError,
    /// An error occurred configuring the PCA9685.
    PwmError,
    /// An error occurred setting a channel.
    ChannelError,
    /// The value for throttle is not in the bounds of [-1.0, 1.0].
    ThrottleError,
    /// An invalid motor was provided to a constructor, i.e. a stepper motor
    /// passed into the DC motor constructor.
    InvalidMotorError,
    PositionError,
    InvalidAngle,
}

impl MotorError {
    /// A human-readable description of the error.
    pub fn message(&self) -> (r: &'static str)
        ensures
            r@.len() > 0,
    {
        proof {
            reveal_strlit("I2cError");
            reveal_strlit("PwmError");
            reveal_strlit("ChannelError");
            reveal_strlit("ThrottleError");
            reveal_strlit("InvalidMotorError");
            reveal_strlit("PositionError");
            reveal_strlit("InvalidAngle");
        }
        match self {
            MotorError::I2cError => "I2cError",
            MotorError::PwmError => "PwmError",
            MotorError::ChannelError => "ChannelError",
            MotorError::ThrottleError => "ThrottleError",
            MotorError::InvalidMotorError => "InvalidMotorError",
            MotorError::PositionError => "PositionError",
            MotorError::InvalidAngle => "InvalidAngle",
        }
    }
}

/// Errors of the servo driver.
#[derive(Debug, Clone, Copy, PartialEq, Eq, Structural)]
pub enum ServoError {
    /// An error occurred initializing the I2C bus.
    I2cError,
    /// An error occurred configuring the PCA9685.
    PwmError,
}

impl ServoError {
    /// A human-readable description of the error.
    pub fn message(&self) -> (r: &'static str)
        ensures
            r@.len() > 0,
    {
        proof {
            reveal_strlit("I2cError");
            reveal_strlit("PwmError");
        }
        match self {
            ServoError::I2cError => "I2cError",
            ServoError::PwmError => "PwmError",
        }
    }
}

} // verus!
