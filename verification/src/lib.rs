//! Moteur de conversion de documents et de manipulation de PDF.
//!
//! Le coeur du moteur est un modele verifie du graphe d'objets PDF
//! (`modele`), sur lequel travaillent le generateur (`generation`),
//! les operations structurelles (`operations`) et le pont de formats
//! (`pont`). Les lectures et ecritures de fichiers restent a la charge
//! de l'application hote.
use vstd::prelude::*;

pub mod format;
pub mod modele;
pub mod operations;
pub mod texte;
pub mod generation;
pub mod conversion;
pub mod pont;
pub mod media;
pub mod lois;

verus! {

/// Les familles d'echec que le moteur peut signaler.
#[derive(Debug, Clone, Copy, PartialEq, Eq, Structural)]
pub enum Erreur {
    /// La source ne se laisse pas analyser.
    Chargement,
    /// Aucun chemin de conversion direct ou indirect n'existe.
    ConversionNonSupportee,
    /// Echec de lecture ou d'ecriture.
    EntreeSortie,
    /// Reference Pages/Catalog absente, page hors limites, geometrie introuvable.
    Structurelle,
    /// Echec de dechiffrement.
    Chiffrement,
    /// Caractere non representable remplace (non fatal).
    PerteEncodage,
}

/// Egalite des tranches de chaines.
///
/// Relies on str's PartialEq: two string slices are equal exactly when
/// their character sequences are equal.
pub assume_specification[ <str as PartialEq>::eq ](a: &str, b: &str) -> (r: bool)
    ensures
        r == (a@ == b@),
;

} // verus!
