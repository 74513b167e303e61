//! The texts of the errors, as users see them.

use vstd::prelude::*;

use crate::chain::BlockError;
use crate::consensus::ConsensusError;
use crate::crypto::{CryptoError, CryptoErrorView};
use crate::genesis::GenesisError;
use crate::keystore::KeystoreError;
use crate::mempool::MempoolError;
use crate::node::BootstrapError;
use crate::state::{ErrorText, StateError};
use crate::text::{decimal, decimal_text};
use crate::wallet::WalletError;

verus! {

/// The text of an error about keys, signatures and addresses.
pub open spec fn crypto_text(e: CryptoErrorView) -> Seq<char> {
    match e {
        CryptoErrorView::InvalidSignature => "firma inválida"@,
        CryptoErrorView::InvalidPublicKeyLength => "bytes de llave pública con largo inválido"@,
        CryptoErrorView::AddressDecode(message) => {
            "no se pudo decodificar la dirección: "@ + message
        },
        CryptoErrorView::UnexpectedHrp { expected, found } => {
            "prefijo de dirección inesperado: se esperaba '"@ + expected + "', se encontró '"@
                + found + "'"@
        },
    }
}

impl ErrorText for CryptoError {
    open spec fn text(&self) -> Seq<char> {
        crypto_text(self@)
    }

    fn describe(&self) -> (r: String) {
        match self {
            CryptoError::InvalidSignature => "firma inválida".to_owned(),
            CryptoError::InvalidPublicKeyLength => {
                "bytes de llave pública con largo inválido".to_owned()
            },
            CryptoError::AddressDecode(message) => {
                let mut r = "no se pudo decodificar la dirección: ".to_owned();
                r.append(message.as_str());
                r
            },
            CryptoError::UnexpectedHrp { expected, found } => {
                let mut r = "prefijo de dirección inesperado: se esperaba '".to_owned();
                r.append(expected.as_str());
                r.append("', se encontró '");
                r.append(found.as_str());
                r.append("'");
                r
            },
        }
    }
}

impl ErrorText for ConsensusError {
    open spec fn text(&self) -> Seq<char> {
        match self {
            ConsensusError::InsufficientWork => {
                "el hash del header no cumple el target declarado (falta prueba de trabajo)"@
            },
        }
    }

    fn describe(&self) -> (r: String) {
        match self {
            ConsensusError::InsufficientWork => {
                "el hash del header no cumple el target declarado (falta prueba de trabajo)".to_owned()
            },
        }
    }
}

impl ErrorText for StateError {
    open spec fn text(&self) -> Seq<char> {
        match self {
            StateError::InvalidPublicKey => {
                "llave pública inválida en un input de la transacción"@
            },
            StateError::AddressMismatch => {
                "la dirección derivada de la llave pública de un input no coincide con el dueño del UTXO referenciado"@
            },
            StateError::InvalidSignature => "firma inválida en un input de la transacción"@,
            StateError::WrongChainId { expected, found } => {
                "chain_id incorrecto: se esperaba '"@
                    + expected@
                    + "', la tx trae '"@
                    + found@
                    + "'"@
            },
            StateError::NoInputs => "la transacción no tiene ningún input"@,
            StateError::DuplicateInput => {
                "un mismo outpoint aparece más de una vez como input de la misma transacción"@
            },
            StateError::UnknownOutpoint => {
                "el outpoint referenciado no existe (ya gastado o nunca existió)"@
            },
            StateError::InsufficientInputs { available, required } => {
                "los inputs no alcanzan para cubrir los outputs: disponible "@
                    + decimal_text(*available as nat)
                    + ", se necesitan "@
                    + decimal_text(*required as nat)
            },
            StateError::NotCoinbase => "se esperaba una transacción coinbase y no lo es"@,
            StateError::UnexpectedCoinbase => {
                "una transacción regular no puede tener la forma de una coinbase"@
            },
            StateError::WrongCoinbaseHeight { expected, found } => {
                "altura codificada en el input de coinbase no coincide: se esperaba "@
                    + decimal_text(*expected as nat)
                    + ", se encontró "@
                    + decimal_text(*found as nat)
            },
            StateError::CoinbaseOverclaims { claimed, allowed } => {
                "la coinbase reclama más de lo permitido: reclama "@
                    + decimal_text(*claimed as nat)
                    + ", el máximo permitido es "@
                    + decimal_text(*allowed as nat)
            },
            StateError::Overflow => "desbordamiento aritmético aplicando la transacción"@,
            StateError::Store(message) => {
                "error del store subyacente al confirmar los cambios: "@ + message@
            },
        }
    }

    fn describe(&self) -> (r: String) {
        match self {
            StateError::InvalidPublicKey => {
                "llave pública inválida en un input de la transacción".to_owned()
            },
            StateError::AddressMismatch => {
                "la dirección derivada de la llave pública de un input no coincide con el dueño del UTXO referenciado".to_owned()
            },
            StateError::InvalidSignature => {
                "firma inválida en un input de la transacción".to_owned()
            },
            StateError::WrongChainId { expected, found } => {
                let mut r = "chain_id incorrecto: se esperaba '".to_owned();
                r.append(expected.as_str());
                r.append("', la tx trae '");
                r.append(found.as_str());
                r.append("'");
                r
            },
            StateError::NoInputs => "la transacción no tiene ningún input".to_owned(),
            StateError::DuplicateInput => {
                "un mismo outpoint aparece más de una vez como input de la misma transacción".to_owned()
            },
            StateError::UnknownOutpoint => {
                "el outpoint referenciado no existe (ya gastado o nunca existió)".to_owned()
            },
            StateError::InsufficientInputs { available, required } => {
                let mut r = "los inputs no alcanzan para cubrir los outputs: disponible ".to_owned();
                r.append(decimal(*available as u128).as_str());
                r.append(", se necesitan ");
                r.append(decimal(*required as u128).as_str());
                r
            },
            StateError::NotCoinbase => {
                "se esperaba una transacción coinbase y no lo es".to_owned()
            },
            StateError::UnexpectedCoinbase => {
                "una transacción regular no puede tener la forma de una coinbase".to_owned()
            },
            StateError::WrongCoinbaseHeight { expected, found } => {
                let mut r = "altura codificada en el input de coinbase no coincide: se esperaba ".to_owned();
                r.append(decimal(*expected as u128).as_str());
                r.append(", se encontró ");
                r.append(decimal(*found as u128).as_str());
                r
            },
            StateError::CoinbaseOverclaims { claimed, allowed } => {
                let mut r = "la coinbase reclama más de lo permitido: reclama ".to_owned();
                r.append(decimal(*claimed as u128).as_str());
                r.append(", el máximo permitido es ");
                r.append(decimal(*allowed as u128).as_str());
                r
            },
            StateError::Overflow => {
                "desbordamiento aritmético aplicando la transacción".to_owned()
            },
            StateError::Store(message) => {
                let mut r = "error del store subyacente al confirmar los cambios: ".to_owned();
                r.append(message.as_str());
                r
            },
        }
    }
}

impl ErrorText for MempoolError {
    open spec fn text(&self) -> Seq<char> {
        match self {
            MempoolError::InvalidPublicKey => {
                "llave pública inválida en un input de la transacción"@
            },
            MempoolError::AddressMismatch => {
                "la dirección derivada de la llave pública de un input no coincide con el dueño del UTXO referenciado"@
            },
            MempoolError::InvalidSignature => "firma inválida en un input de la transacción"@,
            MempoolError::WrongChainId { expected, found } => {
                "chain_id incorrecto: se esperaba '"@
                    + expected@
                    + "', la tx trae '"@
                    + found@
                    + "'"@
            },
            MempoolError::NoInputs => "la transacción no tiene ningún input"@,
            MempoolError::CoinbaseNotAllowed => {
                "las transacciones coinbase no se admiten por esta vía, las arma el minero directamente"@
            },
            MempoolError::DuplicateInput => {
                "un mismo outpoint aparece más de una vez como input de la misma transacción"@
            },
            MempoolError::UnknownOutpoint => {
                "el outpoint referenciado no existe en el UTXO set (ya gastado en cadena, o nunca existió)"@
            },
            MempoolError::OutpointAlreadyClaimed => {
                "el outpoint referenciado ya está siendo gastado por otra transacción pendiente en el mempool"@
            },
            MempoolError::AlreadyInMempool => {
                "esta transacción (mismo txid) ya está en el mempool"@
            },
            MempoolError::InsufficientInputs { available, required } => {
                "los inputs no alcanzan para cubrir los outputs: disponible "@
                    + decimal_text(*available as nat)
                    + ", se necesitan "@
                    + decimal_text(*required as nat)
            },
            MempoolError::Overflow => "desbordamiento aritmético validando la transacción"@,
            MempoolError::Full => "el mempool está lleno — probá de nuevo más tarde"@,
        }
    }

    fn describe(&self) -> (r: String) {
        match self {
            MempoolError::InvalidPublicKey => {
                "llave pública inválida en un input de la transacción".to_owned()
            },
            MempoolError::AddressMismatch => {
                "la dirección derivada de la llave pública de un input no coincide con el dueño del UTXO referenciado".to_owned()
            },
            MempoolError::InvalidSignature => {
                "firma inválida en un input de la transacción".to_owned()
            },
            MempoolError::WrongChainId { expected, found } => {
                let mut r = "chain_id incorrecto: se esperaba '".to_owned();
                r.append(expected.as_str());
                r.append("', la tx trae '");
                r.append(found.as_str());
                r.append("'");
                r
            },
            MempoolError::NoInputs => "la transacción no tiene ningún input".to_owned(),
            MempoolError::CoinbaseNotAllowed => {
                "las transacciones coinbase no se admiten por esta vía, las arma el minero directamente".to_owned()
            },
            MempoolError::DuplicateInput => {
                "un mismo outpoint aparece más de una vez como input de la misma transacción".to_owned()
            },
            MempoolError::UnknownOutpoint => {
                "el outpoint referenciado no existe en el UTXO set (ya gastado en cadena, o nunca existió)".to_owned()
            },
            MempoolError::OutpointAlreadyClaimed => {
                "el outpoint referenciado ya está siendo gastado por otra transacción pendiente en el mempool".to_owned()
            },
            MempoolError::AlreadyInMempool => {
                "esta transacción (mismo txid) ya está en el mempool".to_owned()
            },
            MempoolError::InsufficientInputs { available, required } => {
                let mut r = "los inputs no alcanzan para cubrir los outputs: disponible ".to_owned();
                r.append(decimal(*available as u128).as_str());
                r.append(", se necesitan ");
                r.append(decimal(*required as u128).as_str());
                r
            },
            MempoolError::Overflow => {
                "desbordamiento aritmético validando la transacción".to_owned()
            },
            MempoolError::Full => "el mempool está lleno — probá de nuevo más tarde".to_owned(),
        }
    }
}

impl ErrorText for BlockError {
    open spec fn text(&self) -> Seq<char> {
        match self {
            BlockError::UnexpectedHeight { local, found } => {
                "altura inesperada: local está en "@
                    + decimal_text(*local as nat)
                    + ", el bloque trae "@
                    + decimal_text(*found as nat)
                    + " (se espera "@
                    + decimal_text(*local as nat)
                    + " + 1)"@
            },
            BlockError::ParentMismatch => {
                "parent_hash no coincide con la punta local — posible fork"@
            },
            BlockError::Pow(e) => "prueba de trabajo insuficiente: "@ + e.text(),
            BlockError::UnexpectedTarget => {
                "target declarado no coincide con el esperado para esta altura"@
            },
            BlockError::BadTxRoot => {
                "tx_root del header no coincide con las transacciones incluidas"@
            },
            BlockError::MissingCoinbase => "el bloque no empieza con una transacción coinbase"@,
            BlockError::UnexpectedCoinbase => {
                "una transacción regular tiene la forma de una coinbase"@
            },
            BlockError::Transaction(e) => "transacción del bloque inválida: "@ + e.text(),
            BlockError::Coinbase(e) => "coinbase inválida: "@ + e.text(),
            BlockError::Overflow => "desbordamiento aritmético validando el bloque"@,
            BlockError::Storage(e) => "error de storage: "@ + e.text(),
        }
    }

    fn describe(&self) -> (r: String) {
        match self {
            BlockError::UnexpectedHeight { local, found } => {
                let mut r = "altura inesperada: local está en ".to_owned();
                r.append(decimal(*local as u128).as_str());
                r.append(", el bloque trae ");
                r.append(decimal(*found as u128).as_str());
                r.append(" (se espera ");
                r.append(decimal(*local as u128).as_str());
                r.append(" + 1)");
                r
            },
            BlockError::ParentMismatch => {
                "parent_hash no coincide con la punta local — posible fork".to_owned()
            },
            BlockError::Pow(e) => {
                let mut r = "prueba de trabajo insuficiente: ".to_owned();
                r.append(e.describe().as_str());
                r
            },
            BlockError::UnexpectedTarget => {
                "target declarado no coincide con el esperado para esta altura".to_owned()
            },
            BlockError::BadTxRoot => {
                "tx_root del header no coincide con las transacciones incluidas".to_owned()
            },
            BlockError::MissingCoinbase => {
                "el bloque no empieza con una transacción coinbase".to_owned()
            },
            BlockError::UnexpectedCoinbase => {
                "una transacción regular tiene la forma de una coinbase".to_owned()
            },
            BlockError::Transaction(e) => {
                let mut r = "transacción del bloque inválida: ".to_owned();
                r.append(e.describe().as_str());
                r
            },
            BlockError::Coinbase(e) => {
                let mut r = "coinbase inválida: ".to_owned();
                r.append(e.describe().as_str());
                r
            },
            BlockError::Overflow => "desbordamiento aritmético validando el bloque".to_owned(),
            BlockError::Storage(e) => {
                let mut r = "error de storage: ".to_owned();
                r.append(e.describe().as_str());
                r
            },
        }
    }
}

impl ErrorText for GenesisError {
    open spec fn text(&self) -> Seq<char> {
        match self {
            GenesisError::EmptySubsidySchedule => "`subsidy_schedule` no puede estar vacío"@,
            GenesisError::InvalidSubsidy { index, value } => {
                "`subsidy_schedule["@
                    + decimal_text(*index as nat)
                    + "]` inválido en el génesis: '"@
                    + value@
                    + "' no es un u128 válido"@
            },
            GenesisError::InvalidTarget(message) => {
                "`initial_target` inválido en el génesis: "@ + message@
            },
            GenesisError::InvalidTimestamp(message) => {
                "`genesis_time` inválido (se espera RFC3339): "@ + message@
            },
            GenesisError::InvalidPremineAddress(address, e) => {
                "dirección de premine inválida ('"@ + address@ + "'): "@ + e.text()
            },
            GenesisError::InvalidPremineAmount { address, value } => {
                "monto de premine inválido para '"@
                    + address@
                    + "': '"@
                    + value@
                    + "' no es un u128 válido"@
            },
        }
    }

    fn describe(&self) -> (r: String) {
        match self {
            GenesisError::EmptySubsidySchedule => {
                "`subsidy_schedule` no puede estar vacío".to_owned()
            },
            GenesisError::InvalidSubsidy { index, value } => {
                let mut r = "`subsidy_schedule[".to_owned();
                r.append(decimal(*index as u128).as_str());
                r.append("]` inválido en el génesis: '");
                r.append(value.as_str());
                r.append("' no es un u128 válido");
                r
            },
            GenesisError::InvalidTarget(message) => {
                let mut r = "`initial_target` inválido en el génesis: ".to_owned();
                r.append(message.as_str());
                r
            },
            GenesisError::InvalidTimestamp(message) => {
                let mut r = "`genesis_time` inválido (se espera RFC3339): ".to_owned();
                r.append(message.as_str());
                r
            },
            GenesisError::InvalidPremineAddress(address, e) => {
                let mut r = "dirección de premine inválida ('".to_owned();
                r.append(address.as_str());
                r.append("'): ");
                r.append(e.describe().as_str());
                r
            },
            GenesisError::InvalidPremineAmount { address, value } => {
                let mut r = "monto de premine inválido para '".to_owned();
                r.append(address.as_str());
                r.append("': '");
                r.append(value.as_str());
                r.append("' no es un u128 válido");
                r
            },
        }
    }
}

impl ErrorText for BootstrapError {
    open spec fn text(&self) -> Seq<char> {
        match self {
            BootstrapError::Storage(e) => "error de storage: "@ + e.text(),
            BootstrapError::InvalidPremine(e) => "premine de génesis inválido: "@ + e.text(),
        }
    }

    fn describe(&self) -> (r: String) {
        match self {
            BootstrapError::Storage(e) => {
                let mut r = "error de storage: ".to_owned();
                r.append(e.describe().as_str());
                r
            },
            BootstrapError::InvalidPremine(e) => {
                let mut r = "premine de génesis inválido: ".to_owned();
                r.append(e.describe().as_str());
                r
            },
        }
    }
}

impl ErrorText for WalletError {
    open spec fn text(&self) -> Seq<char> {
        match self {
            WalletError::FetchUnspent(message) => "`list_unspent` falló: "@ + message@,
            WalletError::Submit(message) => "`submit_transaction` falló: "@ + message@,
            WalletError::LatestHeight(message) => "`get_latest_height` falló: "@ + message@,
            WalletError::GetTransaction(message) => "`get_transaction` falló: "@ + message@,
            WalletError::AmountOverflow => "amount + fee desborda u128"@,
            WalletError::InsufficientFunds { target, available } => {
                "fondos insuficientes: se necesitan "@
                    + decimal_text(*target as nat)
                    + ", hay "@
                    + decimal_text(*available as nat)
                    + " disponibles"@
            },
        }
    }

    fn describe(&self) -> (r: String) {
        match self {
            WalletError::FetchUnspent(message) => {
                let mut r = "`list_unspent` falló: ".to_owned();
                r.append(message.as_str());
                r
            },
            WalletError::Submit(message) => {
                let mut r = "`submit_transaction` falló: ".to_owned();
                r.append(message.as_str());
                r
            },
            WalletError::LatestHeight(message) => {
                let mut r = "`get_latest_height` falló: ".to_owned();
                r.append(message.as_str());
                r
            },
            WalletError::GetTransaction(message) => {
                let mut r = "`get_transaction` falló: ".to_owned();
                r.append(message.as_str());
                r
            },
            WalletError::AmountOverflow => "amount + fee desborda u128".to_owned(),
            WalletError::InsufficientFunds { target, available } => {
                let mut r = "fondos insuficientes: se necesitan ".to_owned();
                r.append(decimal(*target as u128).as_str());
                r.append(", hay ");
                r.append(decimal(*available as u128).as_str());
                r.append(" disponibles");
                r
            },
        }
    }
}

impl ErrorText for KeystoreError {
    open spec fn text(&self) -> Seq<char> {
        match self {
            KeystoreError::Address(e) => "dirección inválida en el keystore: "@ + e.text(),
            KeystoreError::InvalidHex(message) => {
                "campo hex inválido en el keystore: "@ + message@
            },
            KeystoreError::Kdf(message) => {
                "no se pudo derivar la clave de la contraseña: "@ + message@
            },
            KeystoreError::WrongPassword => "contraseña incorrecta (o keystore corrupto)"@,
        }
    }

    fn describe(&self) -> (r: String) {
        match self {
            KeystoreError::Address(e) => {
                let mut r = "dirección inválida en el keystore: ".to_owned();
                r.append(e.describe().as_str());
                r
            },
            KeystoreError::InvalidHex(message) => {
                let mut r = "campo hex inválido en el keystore: ".to_owned();
                r.append(message.as_str());
                r
            },
            KeystoreError::Kdf(message) => {
                let mut r = "no se pudo derivar la clave de la contraseña: ".to_owned();
                r.append(message.as_str());
                r
            },
            KeystoreError::WrongPassword => {
                "contraseña incorrecta (o keystore corrupto)".to_owned()
            },
        }
    }
}

} // verus!
