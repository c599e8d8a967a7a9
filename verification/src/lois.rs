//! Les lois generales du moteur, enoncees et prouvees sur les fonctions
//! de specification memes dont les contrats des operations parlent.
use vstd::prelude::*;

use crate::modele::Chiffrement;
use crate::operations::{
    boite_recadree, mdp_accepte, positions_gardees, rotation_apres, somme_pages,
};

verus! {

/// Deux quarts de tour valent un demi-tour : la rotation est additive,
/// modulo un tour complet, quel que soit l'angle deja porte par la page.
pub proof fn loi_rotation_additive(actuel: int)
    ensures
        rotation_apres(rotation_apres(actuel, 90), 90) == rotation_apres(actuel, 180),
{
}

/// Un recadrage plein cadre laisse les bornes effectives de la page
/// inchangees : l'origine reste l'origine, les coins restent les coins.
pub proof fn loi_recadrage_plein_cadre(b: (int, int, int, int))
    ensures
        boite_recadree(b, 0, 0, 100, 100) == b,
{
    assert(crate::operations::div_cent((b.2 - b.0) * 0) == 0);
    assert(crate::operations::div_cent((b.3 - b.1) * 0) == 0);
    assert(crate::operations::div_cent((b.2 - b.0) * 100) == b.2 - b.0);
    assert(crate::operations::div_cent((b.3 - b.1) * 100) == b.3 - b.1);
}

/// Un parametrage de protection s'ouvre avec le mot de passe du
/// proprietaire comme avec celui de l'utilisateur, et avec aucun autre.
pub proof fn loi_protection(c: Chiffrement, mdp: Seq<char>)
    ensures
        mdp == c.proprietaire@ ==> mdp_accepte(c, mdp),
        mdp == c.utilisateur@ ==> mdp_accepte(c, mdp),
        (mdp != c.proprietaire@ && mdp != c.utilisateur@) ==> !mdp_accepte(c, mdp),
{
}

/// Oter une seule page d'un document de N pages garde N - 1 positions,
/// dans leur ordre : celles d'avant la page otee, puis celles d'apres.
pub proof fn loi_suppression_simple(total: int, k: u32)
    requires
        1 <= k as int <= total <= u32::MAX as int,
    ensures
        positions_gardees(total, seq![k]).len() == total - 1,
        forall|i: int|
            0 <= i < total - 1 ==> (#[trigger] positions_gardees(total, seq![k])[i]) as int == (
            if i < k as int - 1 {
                i + 1
            } else {
                i + 2
            }),
    decreases total,
{
    let gardees = positions_gardees(total, seq![k]);
    if total > 1 {
        if total == k as int {
            assert(seq![k].contains(total as u32)) by {
                assert(seq![k][0] == k);
            }
            lemma_gardees_sans(total - 1, k);
            assert(gardees == positions_gardees(total - 1, seq![k]));
            assert forall|i: int| 0 <= i < total - 1 implies (#[trigger] gardees[i]) as int == (
            if i < k as int - 1 {
                i + 1
            } else {
                i + 2
            }) by {
                assert(gardees[i] as int == i + 1);
            }
        } else {
            loi_suppression_simple(total - 1, k);
            assert(!seq![k].contains(total as u32)) by {
                if seq![k].contains(total as u32) {
                    let i = choose|i: int| 0 <= i < 1 && seq![k][i] == total as u32;
                    assert(seq![k][0] == k);
                }
            }
            let avant = positions_gardees(total - 1, seq![k]);
            assert(gardees == avant.push(total as u32));
            assert forall|i: int| 0 <= i < total - 1 implies (#[trigger] gardees[i]) as int == (
            if i < k as int - 1 {
                i + 1
            } else {
                i + 2
            }) by {
                if i < total - 2 {
                    assert(gardees[i] == avant[i]);
                } else {
                    assert(gardees[i] == total as u32);
                }
            }
        }
    } else {
        assert(seq![k].contains(total as u32)) by {
            assert(seq![k][0] == k);
        }
        assert(gardees == positions_gardees(0, seq![k]));
        assert(gardees.len() == 0);
    }
}

/// Quand la page otee est au-dela du total, toutes les positions restent.
proof fn lemma_gardees_sans(total: int, k: u32)
    requires
        0 <= total < k as int,
        k as int <= u32::MAX as int,
    ensures
        positions_gardees(total, seq![k]).len() == total,
        forall|i: int|
            0 <= i < total ==> (#[trigger] positions_gardees(total, seq![k])[i]) as int == i + 1,
    decreases total,
{
    if total > 0 {
        lemma_gardees_sans(total - 1, k);
        assert(!seq![k].contains(total as u32)) by {
            if seq![k].contains(total as u32) {
                let i = choose|i: int| 0 <= i < 1 && seq![k][i] == total as u32;
                assert(seq![k][0] == k);
            }
        }
    } else {
        assert(positions_gardees(0, seq![k]).len() == 0);
    }
}

/// Eclater un document de N pages donne N documents d'une page chacun ;
/// les fusionner rend un document dont le compte de pages est la somme
/// des leurs, donc N : le compte de pages fait l'aller-retour.
pub proof fn loi_eclatement_fusion(docs: Seq<crate::modele::Document>)
    requires
        forall|i: int| 0 <= i < docs.len() ==> crate::modele::nombre_pages(#[trigger] docs[i])
            == 1,
    ensures
        somme_pages(docs) == docs.len(),
    decreases docs.len(),
{
    if docs.len() > 0 {
        assert(forall|i: int|
            0 <= i < docs.drop_last().len() ==> crate::modele::nombre_pages(
                #[trigger] docs.drop_last()[i],
            ) == 1) by {
            assert(forall|i: int|
                0 <= i < docs.drop_last().len() ==> (#[trigger] docs.drop_last()[i]) == docs[i]);
        }
        loi_eclatement_fusion(docs.drop_last());
    }
}

} // verus!
