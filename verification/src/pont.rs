//! Pont entre formats : rend chaque operation de document applicable a
//! n'importe quel format reconnu, en passant par un document natif
//! temporaire. Le pont decide ; l'application hote lit, convertit par la
//! table, execute l'operation et nettoie les deux temporaires sur chaque
//! chemin de sortie, succes ou echec.
use vstd::prelude::*;

use crate::format::{extension_de, minuscules};

verus! {

/// Le plan d'une operation pontee : ou travailler, et quels temporaires
/// poser puis effacer.
pub enum Plan {
    /// L'entree est deja native : l'operation va de l'entree a la sortie.
    Direct,
    /// L'entree doit etre montee en document natif temporaire, l'operation
    /// produit un second temporaire, reconverti vers la sortie demandee.
    /// Les deux noms sont unique par appel grace au jeton.
    Indirect { temporaire_entree: String, temporaire_sortie: String },
}

/// Le nom du premier temporaire : prefixe fixe, jeton d'appel, `.pdf`.
pub open spec fn nom_temp_entree(jeton: Seq<char>) -> Seq<char> {
    "tmp_"@ + jeton + ".pdf"@
}

/// Le nom du second temporaire : le premier, suffixe `_out`.
pub open spec fn nom_temp_sortie(jeton: Seq<char>) -> Seq<char> {
    "tmp_"@ + jeton + "_out.pdf"@
}

/// Les deux noms different toujours, quel que soit le jeton : le pont ne
/// peut pas s'ecraser lui-meme.
pub proof fn lemma_temporaires_distincts(jeton: Seq<char>)
    ensures
        nom_temp_entree(jeton) != nom_temp_sortie(jeton),
{
    reveal_strlit("tmp_");
    reveal_strlit(".pdf");
    reveal_strlit("_out.pdf");
    assert(nom_temp_entree(jeton).len() != nom_temp_sortie(jeton).len());
}

/// Decide comment executer une operation de document sur un chemin
/// d'entree quelconque. Un chemin natif travaille en direct ; tout autre
/// passe par deux temporaires dont les noms, derives du jeton d'appel et
/// non du nom de l'entree, ne peuvent entrer en collision entre appels
/// concourants aux jetons distincts.
pub fn appliquer_operation_doc(chemin_entree: &str, jeton: &str) -> (r: Plan)
    ensures
        minuscules(extension_de(chemin_entree@)) == "pdf"@ <==> r is Direct,
        r matches Plan::Indirect { temporaire_entree, temporaire_sortie } ==> {
            &&& temporaire_entree@ == nom_temp_entree(jeton@)
            &&& temporaire_sortie@ == nom_temp_sortie(jeton@)
            &&& temporaire_entree@ != temporaire_sortie@
        },
{
    if crate::format::est_pdf(chemin_entree) {
        Plan::Direct
    } else {
        proof {
            reveal_strlit("tmp_");
            reveal_strlit(".pdf");
            reveal_strlit("_out.pdf");
            lemma_temporaires_distincts(jeton@);
        }
        let mut entree = "tmp_".to_owned();
        entree.append(jeton);
        let mut sortie = entree.clone();
        entree.append(".pdf");
        sortie.append("_out.pdf");
        Plan::Indirect { temporaire_entree: entree, temporaire_sortie: sortie }
    }
}

/// Le chemin de sortie d'une conversion vers le format natif : le chemin
/// d'entree, son extension remplacee par `pdf`.
pub open spec fn chemin_pdf(chemin: Seq<char>) -> Seq<char> {
    let ext = extension_de(chemin);
    if ext.len() == 0 {
        chemin + ".pdf"@
    } else {
        chemin.take(chemin.len() - ext.len()) + "pdf"@
    }
}

/// Remplace l'extension d'un chemin par `pdf`, ou l'ajoute s'il n'en a
/// pas.
#[verifier::loop_isolation(false)]
pub fn convertir_vers_pdf(chemin: &str) -> (r: String)
    ensures
        r@ == chemin_pdf(chemin@),
{
    proof {
        reveal_strlit(".pdf");
        reveal_strlit("pdf");
    }
    let ext = crate::format::longueur_extension(chemin);
    if ext == 0 {
        let mut r = chemin.to_owned();
        r.append(".pdf");
        proof {
            assert(r@ =~= chemin_pdf(chemin@));
        }
        r
    } else {
        let garde = chemin.unicode_len() - ext;
        let tronc = chemin.substring_char(0, garde);
        let mut r = tronc.to_owned();
        r.append("pdf");
        proof {
            assert(tronc@ =~= chemin@.take(chemin@.len() - ext as int));
            assert(r@ =~= chemin_pdf(chemin@));
        }
        r
    }
}

} // verus!
