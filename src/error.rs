use vstd::prelude::*;

verus! {

/// Errors of the secure-communications stack. The quantum layer raises
/// `QuantumOperation` alone, with a message that names the failed check.
#[derive(Debug, Clone)]
pub enum SecureCommsError {
    Security(String),
    QuantumOperation(String),
    NetworkError(String),
    Consensus(String),
    Configuration(String),
    Performance(String),
    Timeout(String),
    Validation(String),
    ResourceExhausted(String),
    Recovery(String),
    ConsensusVerify(String),
    CryptoProtocol(String),
    PeerNotFound(String),
    ChannelNotEstablished,
    NetworkComm(String),
    AuthenticationFailed,
    SystemError(String),
}

impl SecureCommsError {
    /// A quantum-layer error with the given message.
    pub fn quantum(message: &str) -> (r: SecureCommsError)
        ensures
            r is QuantumOperation && r->QuantumOperation_0@ == message@,
    {
        proof {
            broadcast use vstd::string::to_string_from_display_ensures_for_str;
        }
        SecureCommsError::QuantumOperation(message.to_string())
    }

    /// Whether this is an error of the quantum layer.
    pub fn is_quantum_operation(&self) -> (r: bool)
        ensures
            r == (self is QuantumOperation),
    {
        match self {
            SecureCommsError::QuantumOperation(_) => true,
            _ => false,
        }
    }
}

} // verus!
