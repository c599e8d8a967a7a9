//! Modele du graphe d'objets d'un document PDF.
//!
//! Un document est une arene d'objets indirects : chaque objet porte une
//! identite numerique stable et une valeur. Les objets se referencent
//! uniquement par identite, jamais par inclusion (sauf valeurs en ligne,
//! par exemple un tableau de references). Les nombres reels sont portes
//! en milliemes d'unite PDF, ce qui garde l'arithmetique exacte.
use vstd::prelude::*;

verus! {

/// Identites au-dela de cette borne refusees : elles doivent tenir dans un
/// numero d'objet PDF de 32 bits, avec de la marge pour les decalages de
/// fusion.
pub const BORNE_ID: u64 = 0x8000_0000;

/// Une valeur d'objet PDF. Les reels sont en milliemes.
pub enum Objet {
    Nul,
    Booleen(bool),
    Entier(i64),
    Reel(i64),
    Chaine(Vec<u8>),
    Nom(String),
    Tableau(Vec<Objet>),
    Dictionnaire(Vec<(String, Objet)>),
    Flux(Vec<(String, Objet)>, Vec<u8>),
    Reference(u64),
}

/// L'objet `o` contient-il, a n'importe quelle profondeur, une reference
/// vers l'identite `id` ?
pub open spec fn ref_de(o: Objet, id: u64) -> bool
    decreases o,
{
    match o {
        Objet::Reference(j) => j == id,
        Objet::Tableau(t) => exists|i: int| 0 <= i < t@.len() && ref_de(t@[i], id),
        Objet::Dictionnaire(e) => exists|i: int| 0 <= i < e@.len() && ref_de(e@[i].1, id),
        Objet::Flux(e, _) => exists|i: int| 0 <= i < e@.len() && ref_de(e@[i].1, id),
        _ => false,
    }
}

/// Premiere valeur associee a `cle` dans une liste d'entrees de
/// dictionnaire.
pub open spec fn valeur_cle(e: Seq<(String, Objet)>, cle: Seq<char>) -> Option<Objet>
    decreases e.len(),
{
    if e.len() == 0 {
        None
    } else if e[0].0@ == cle {
        Some(e[0].1)
    } else {
        valeur_cle(e.drop_first(), cle)
    }
}

/// Premiere valeur de l'objet d'identite `id` dans l'arene.
pub open spec fn cherche_spec(objets: Seq<(u64, Objet)>, id: u64) -> Option<Objet>
    decreases objets.len(),
{
    if objets.len() == 0 {
        None
    } else if objets[0].0 == id {
        Some(objets[0].1)
    } else {
        cherche_spec(objets.drop_first(), id)
    }
}

pub open spec fn contient_id(objets: Seq<(u64, Objet)>, id: u64) -> bool {
    cherche_spec(objets, id) is Some
}

/// Parametres de chiffrement retenus par le modele. L'application hote
/// realise le chiffrement effectif au moment de la sauvegarde.
pub struct Chiffrement {
    pub proprietaire: String,
    pub utilisateur: String,
    pub impression: bool,
    pub copie: bool,
}

/// Un document : une arene d'objets, l'identite du catalogue racine, et
/// l'eventuel parametrage de chiffrement en attente.
pub struct Document {
    pub objets: Vec<(u64, Objet)>,
    pub racine: u64,
    pub chiffrement: Option<Chiffrement>,
}

pub open spec fn ids_uniques(objets: Seq<(u64, Objet)>) -> bool {
    forall|i: int, j: int|
        0 <= i < j < objets.len() ==> (#[trigger] objets[i].0) != (#[trigger] objets[j].0)
}

pub open spec fn ids_bornes(objets: Seq<(u64, Objet)>) -> bool {
    forall|i: int| 0 <= i < objets.len() ==> 1 <= (#[trigger] objets[i].0) < BORNE_ID
}

/// Cloture referentielle : toute reference portee par un objet de l'arene
/// designe un objet present dans l'arene. Un sous-ensemble ou une fusion
/// qui perd cette propriete est un document a references pendantes.
pub open spec fn ferme(objets: Seq<(u64, Objet)>) -> bool {
    forall|i: int, x: u64|
        0 <= i < objets.len() && #[trigger] ref_de(objets[i].1, x) ==> contient_id(objets, x)
}

/// L'objet designe est-il un dictionnaire dont `Type` vaut le nom donne ?
pub open spec fn est_dict_de_type(objets: Seq<(u64, Objet)>, id: u64, t: Seq<char>) -> bool {
    &&& cherche_spec(objets, id) matches Some(o)
    &&& o matches Objet::Dictionnaire(e)
    &&& valeur_cle(e@, "Type"@) matches Some(tv)
    &&& tv matches Objet::Nom(n)
    &&& n@ == t
}

/// Identite du noeud Pages designe par le catalogue racine.
pub open spec fn id_pages(d: Document) -> Option<u64> {
    match cherche_spec(d.objets@, d.racine) {
        Some(Objet::Dictionnaire(c)) => match valeur_cle(c@, "Pages"@) {
            Some(Objet::Reference(p)) => Some(p),
            _ => None,
        },
        _ => None,
    }
}

/// Les enfants du noeud Pages, tels quels.
pub open spec fn kids_de(d: Document) -> Seq<Objet> {
    match cherche_spec(d.objets@, id_pages(d)->Some_0) {
        Some(Objet::Dictionnaire(p)) => match valeur_cle(p@, "Kids"@) {
            Some(Objet::Tableau(t)) => t@,
            _ => Seq::empty(),
        },
        _ => Seq::empty(),
    }
}

/// Les identites des pages, dans l'ordre canonique du document.
pub open spec fn pages_spec(d: Document) -> Seq<u64> {
    kids_de(d).map_values(|o: Objet| o->Reference_0)
}

pub open spec fn nombre_pages(d: Document) -> int {
    pages_spec(d).len() as int
}

/// Le squelette Catalog -> Pages -> Kids/Count est en place : Kids est un
/// tableau de references vers des dictionnaires de pages, et Count vaut
/// leur nombre.
pub open spec fn arbre_pages(d: Document) -> bool {
    &&& est_dict_de_type(d.objets@, d.racine, "Catalog"@)
    &&& id_pages(d) matches Some(p)
    &&& est_dict_de_type(d.objets@, p, "Pages"@)
    &&& (cherche_spec(d.objets@, p) matches Some(pn) && pn matches Objet::Dictionnaire(pe) && {
        &&& valeur_cle(pe@, "Kids"@) matches Some(kv)
        &&& kv matches Objet::Tableau(kids)
        &&& valeur_cle(pe@, "Count"@) matches Some(cv)
        &&& cv matches Objet::Entier(n)
        &&& n == kids@.len()
        &&& forall|k: int|
            0 <= k < kids@.len() ==> ((#[trigger] kids@[k]) matches Objet::Reference(r)
                && est_dict_de_type(d.objets@, r, "Page"@))
    })
}

/// Invariant d'un document bien forme, que chaque operation exige et
/// preserve.
pub open spec fn bien_forme(d: Document) -> bool {
    &&& ids_uniques(d.objets@)
    &&& ids_bornes(d.objets@)
    &&& ferme(d.objets@)
    &&& arbre_pages(d)
}

impl Document {
    /// L'objet d'identite `id`, s'il existe.
    pub fn cherche(&self, id: u64) -> (r: Option<&Objet>)
        ensures
            match r {
                Some(o) => cherche_spec(self.objets@, id) matches Some(oo) && *o == oo,
                None => cherche_spec(self.objets@, id) is None,
            },
    {
        proof {
            assert(self.objets@.skip(0) =~= self.objets@);
        }
        let mut i: usize = 0;
        while i < self.objets.len()
            invariant
                0 <= i <= self.objets@.len(),
                cherche_spec(self.objets@, id) == cherche_spec(self.objets@.skip(i as int), id),
            decreases self.objets@.len() - i,
        {
            proof {
                assert(self.objets@.skip(i as int).drop_first() =~= self.objets@.skip(
                    i as int + 1,
                ));
                assert(self.objets@.skip(i as int)[0] == self.objets@[i as int]);
            }
            if self.objets[i].0 == id {
                return Some(&self.objets[i].1);
            }
            i = i + 1;
        }
        None
    }
}

/// Le plus grand numero d'objet d'une arene, 0 si elle est vide.
pub open spec fn maximum_id(objets: Seq<(u64, Objet)>) -> int
    decreases objets.len(),
{
    if objets.len() == 0 {
        0
    } else if objets[0].0 as int >= maximum_id(objets.drop_first()) {
        objets[0].0 as int
    } else {
        maximum_id(objets.drop_first())
    }
}

pub proof fn lemma_maximum_id(objets: Seq<(u64, Objet)>)
    ensures
        maximum_id(objets) >= 0,
        forall|j: int| 0 <= j < objets.len() ==> (#[trigger] objets[j]).0 <= maximum_id(objets),
    decreases objets.len(),
{
    if objets.len() > 0 {
        lemma_maximum_id(objets.drop_first());
        assert forall|j: int| 0 <= j < objets.len() implies (#[trigger] objets[j]).0
            <= maximum_id(objets) by {
            if j > 0 {
                assert(objets.drop_first()[j - 1] == objets[j]);
            }
        }
    }
}

/// Ajouter une entree au numero plus grand que tous porte le maximum a ce
/// numero.
pub proof fn lemma_maximum_push(objets: Seq<(u64, Objet)>, p: (u64, Objet))
    requires
        p.0 as int >= maximum_id(objets),
    ensures
        maximum_id(objets.push(p)) == p.0 as int,
    decreases objets.len(),
{
    let n = objets.push(p);
    if objets.len() == 0 {
        assert(n[0] == p);
        assert(n.drop_first() =~= Seq::<(u64, Objet)>::empty());
        assert(maximum_id(n.drop_first()) == 0);
        assert(maximum_id(n) == p.0 as int);
    } else {
        assert(n[0] == objets[0]);
        assert(n.drop_first() =~= objets.drop_first().push(p));
        assert(maximum_id(objets) >= maximum_id(objets.drop_first()));
        lemma_maximum_push(objets.drop_first(), p);
        assert(maximum_id(n.drop_first()) == p.0 as int);
        assert(objets[0].0 as int <= maximum_id(objets));
        assert(maximum_id(n) == p.0 as int);
    }
}

/// Deux arenes aux memes identites, entree par entree, ont le meme
/// maximum.
pub proof fn lemma_maximum_ids(a: Seq<(u64, Objet)>, b: Seq<(u64, Objet)>)
    requires
        a.len() == b.len(),
        forall|i: int| 0 <= i < a.len() ==> (#[trigger] a[i]).0 == b[i].0,
    ensures
        maximum_id(a) == maximum_id(b),
    decreases a.len(),
{
    if a.len() > 0 {
        assert forall|i: int|
            0 <= i < a.drop_first().len() implies (#[trigger] a.drop_first()[i]).0
            == b.drop_first()[i].0 by {
            assert(a.drop_first()[i] == a[i + 1]);
            assert(b.drop_first()[i] == b[i + 1]);
        }
        lemma_maximum_ids(a.drop_first(), b.drop_first());
        assert(a[0].0 == b[0].0);
    }
}

/// Apres remplacement de l'entree `i` par une entree de meme cle (au sens
/// des vues), les recherches ne changent que pour cette cle.
pub proof fn lemma_valeur_cle_update(e: Seq<(String, Objet)>, i: int, p: (String, Objet))
    requires
        0 <= i < e.len(),
        p.0@ == e[i].0@,
        forall|j: int| 0 <= j < i ==> (#[trigger] e[j].0@) != p.0@,
    ensures
        forall|k: Seq<char>|
            #[trigger] valeur_cle(e.update(i, p), k) == if k == p.0@ {
                Some(p.1)
            } else {
                valeur_cle(e, k)
            },
    decreases e.len(),
{
    let n = e.update(i, p);
    if i == 0 {
        assert(n[0] == p);
        assert(n.drop_first() =~= e.drop_first());
        assert forall|k: Seq<char>|
            #[trigger] valeur_cle(n, k) == if k == p.0@ {
                Some(p.1)
            } else {
                valeur_cle(e, k)
            } by {
            reveal_with_fuel(valeur_cle, 2);
        }
    } else {
        assert(n[0] == e[0]);
        assert(n.drop_first() =~= e.drop_first().update(i - 1, p));
        lemma_valeur_cle_update(e.drop_first(), i - 1, p);
        assert forall|k: Seq<char>|
            #[trigger] valeur_cle(n, k) == if k == p.0@ {
                Some(p.1)
            } else {
                valeur_cle(e, k)
            } by {
            reveal_with_fuel(valeur_cle, 2);
            assert(valeur_cle(n.drop_first(), k) == if k == p.0@ {
                Some(p.1)
            } else {
                valeur_cle(e.drop_first(), k)
            });
            assert(e[0].0@ != p.0@);
        }
    }
}

/// Apres ajout en queue d'une cle absente, les recherches ne changent que
/// pour cette cle.
pub proof fn lemma_valeur_cle_push(e: Seq<(String, Objet)>, p: (String, Objet))
    requires
        forall|j: int| 0 <= j < e.len() ==> (#[trigger] e[j].0@) != p.0@,
    ensures
        forall|k: Seq<char>|
            #[trigger] valeur_cle(e.push(p), k) == if k == p.0@ {
                Some(p.1)
            } else {
                valeur_cle(e, k)
            },
    decreases e.len(),
{
    let n = e.push(p);
    if e.len() == 0 {
        assert(n[0] == p);
        assert(n.drop_first() =~= Seq::<(String, Objet)>::empty());
        assert forall|k: Seq<char>|
            #[trigger] valeur_cle(n, k) == if k == p.0@ {
                Some(p.1)
            } else {
                valeur_cle(e, k)
            } by {
            reveal_with_fuel(valeur_cle, 2);
        }
    } else {
        assert(n[0] == e[0]);
        assert(n.drop_first() =~= e.drop_first().push(p));
        lemma_valeur_cle_push(e.drop_first(), p);
        assert forall|k: Seq<char>|
            #[trigger] valeur_cle(n, k) == if k == p.0@ {
                Some(p.1)
            } else {
                valeur_cle(e, k)
            } by {
            reveal_with_fuel(valeur_cle, 2);
            assert(valeur_cle(n.drop_first(), k) == if k == p.0@ {
                Some(p.1)
            } else {
                valeur_cle(e.drop_first(), k)
            });
            assert(e[0].0@ != p.0@);
        }
    }
}

/// Meme enonce que `lemma_valeur_cle_update`, pour l'arene d'objets.
pub proof fn lemma_cherche_update(objets: Seq<(u64, Objet)>, i: int, p: (u64, Objet))
    requires
        0 <= i < objets.len(),
        p.0 == objets[i].0,
        forall|j: int| 0 <= j < i ==> (#[trigger] objets[j].0) != p.0,
    ensures
        forall|x: u64|
            #[trigger] cherche_spec(objets.update(i, p), x) == if x == p.0 {
                Some(p.1)
            } else {
                cherche_spec(objets, x)
            },
    decreases objets.len(),
{
    let n = objets.update(i, p);
    if i == 0 {
        assert(n[0] == p);
        assert(n.drop_first() =~= objets.drop_first());
        assert forall|x: u64|
            #[trigger] cherche_spec(n, x) == if x == p.0 {
                Some(p.1)
            } else {
                cherche_spec(objets, x)
            } by {
            reveal_with_fuel(cherche_spec, 2);
        }
    } else {
        assert(n[0] == objets[0]);
        assert(n.drop_first() =~= objets.drop_first().update(i - 1, p));
        lemma_cherche_update(objets.drop_first(), i - 1, p);
        assert forall|x: u64|
            #[trigger] cherche_spec(n, x) == if x == p.0 {
                Some(p.1)
            } else {
                cherche_spec(objets, x)
            } by {
            reveal_with_fuel(cherche_spec, 2);
            assert(cherche_spec(n.drop_first(), x) == if x == p.0 {
                Some(p.1)
            } else {
                cherche_spec(objets.drop_first(), x)
            });
            assert(objets[0].0 != p.0);
        }
    }
}

/// Meme enonce que `lemma_valeur_cle_push`, pour l'arene d'objets.
pub proof fn lemma_cherche_push(objets: Seq<(u64, Objet)>, p: (u64, Objet))
    requires
        forall|j: int| 0 <= j < objets.len() ==> (#[trigger] objets[j].0) != p.0,
    ensures
        forall|x: u64|
            #[trigger] cherche_spec(objets.push(p), x) == if x == p.0 {
                Some(p.1)
            } else {
                cherche_spec(objets, x)
            },
    decreases objets.len(),
{
    let n = objets.push(p);
    if objets.len() == 0 {
        assert(n[0] == p);
        assert(n.drop_first() =~= Seq::<(u64, Objet)>::empty());
        assert forall|x: u64|
            #[trigger] cherche_spec(n, x) == if x == p.0 {
                Some(p.1)
            } else {
                cherche_spec(objets, x)
            } by {
            reveal_with_fuel(cherche_spec, 2);
        }
    } else {
        assert(n[0] == objets[0]);
        assert(n.drop_first() =~= objets.drop_first().push(p));
        lemma_cherche_push(objets.drop_first(), p);
        assert forall|x: u64|
            #[trigger] cherche_spec(n, x) == if x == p.0 {
                Some(p.1)
            } else {
                cherche_spec(objets, x)
            } by {
            reveal_with_fuel(cherche_spec, 2);
            assert(cherche_spec(n.drop_first(), x) == if x == p.0 {
                Some(p.1)
            } else {
                cherche_spec(objets.drop_first(), x)
            });
            assert(objets[0].0 != p.0);
        }
    }
}

/// Si une recherche aboutit, un indice de l'arene porte cette identite.
pub proof fn lemma_cherche_indice(objets: Seq<(u64, Objet)>, x: u64)
    requires
        contient_id(objets, x),
    ensures
        exists|i: int|
            0 <= i < objets.len() && (#[trigger] objets[i]).0 == x && cherche_spec(objets, x)
                == Some(objets[i].1),
    decreases objets.len(),
{
    if objets.len() > 0 && objets[0].0 != x {
        lemma_cherche_indice(objets.drop_first(), x);
        let i = choose|i: int|
            0 <= i < objets.drop_first().len() && (#[trigger] objets.drop_first()[i]).0 == x
                && cherche_spec(objets.drop_first(), x) == Some(objets.drop_first()[i].1);
        assert(objets[i + 1] == objets.drop_first()[i]);
    }
}

/// Reciproque : l'identite portee a l'indice `i` se retrouve par recherche.
pub proof fn lemma_indice_cherche(objets: Seq<(u64, Objet)>, i: int)
    requires
        0 <= i < objets.len(),
    ensures
        contient_id(objets, objets[i].0),
    decreases i,
{
    if objets[0].0 != objets[i].0 {
        assert(objets.drop_first()[i - 1] == objets[i]);
        lemma_indice_cherche(objets.drop_first(), i - 1);
    }
}

/// Sous unicite des identites, la recherche a l'indice `i` rend l'entree `i`.
pub proof fn lemma_cherche_unique(objets: Seq<(u64, Objet)>, i: int)
    requires
        ids_uniques(objets),
        0 <= i < objets.len(),
    ensures
        cherche_spec(objets, objets[i].0) == Some(objets[i].1),
    decreases i,
{
    if i > 0 {
        assert(objets[0].0 != objets[i].0);
        assert(objets.drop_first()[i - 1] == objets[i]);
        assert(ids_uniques(objets.drop_first())) by {
            assert forall|a: int, b: int| 0 <= a < b < objets.drop_first().len() implies (
            #[trigger] objets.drop_first()[a].0) != (#[trigger] objets.drop_first()[b].0) by {
                assert(objets.drop_first()[a] == objets[a + 1]);
                assert(objets.drop_first()[b] == objets[b + 1]);
            }
        }
        lemma_cherche_unique(objets.drop_first(), i - 1);
    }
}

impl Document {
    /// Remplace la valeur de l'objet `id`, si present. Rend la presence.
    pub fn remplace(&mut self, id: u64, v: Objet) -> (r: bool)
        requires
            ids_uniques(old(self).objets@),
        ensures
            final(self).racine == old(self).racine,
            final(self).chiffrement == old(self).chiffrement,
            r == contient_id(old(self).objets@, id),
            final(self).objets@.len() == old(self).objets@.len(),
            ids_uniques(final(self).objets@),
            forall|i: int|
                0 <= i < old(self).objets@.len() ==> (#[trigger] final(self).objets@[i]).0 == old(
                    self,
                ).objets@[i].0,
            forall|i: int|
                0 <= i < old(self).objets@.len() ==> (#[trigger] final(self).objets@[i]) == old(
                    self,
                ).objets@[i] || (final(self).objets@[i].0 == id && final(self).objets@[i].1 == v),
            forall|x: u64|
                #[trigger] cherche_spec(final(self).objets@, x) == if x == id && r {
                    Some(v)
                } else {
                    cherche_spec(old(self).objets@, x)
                },
    {
        let ghost objets0 = self.objets@;
        let mut trouve: Option<usize> = None;
        let mut i: usize = 0;
        while i < self.objets.len() && trouve.is_none()
            invariant
                self.objets@ == objets0,
                0 <= i <= objets0.len(),
                match trouve {
                    Some(t) => t < objets0.len() && objets0[t as int].0 == id && forall|j: int|
                        0 <= j < t ==> (#[trigger] objets0[j].0) != id,
                    None => forall|j: int| 0 <= j < i ==> (#[trigger] objets0[j].0) != id,
                },
            decreases objets0.len() - i, (if trouve is None { 1int } else { 0int }),
        {
            if self.objets[i].0 == id {
                trouve = Some(i);
            } else {
                i = i + 1;
            }
        }
        match trouve {
            Some(t) => {
                proof {
                    lemma_cherche_update(objets0, t as int, (id, v));
                    lemma_cherche_unique(objets0, t as int);
                    let n = objets0.update(t as int, (id, v));
                    assert forall|a: int, b: int| 0 <= a < b < n.len() implies (#[trigger] n[a].0)
                        != (#[trigger] n[b].0) by {
                        assert(n[a].0 == objets0[a].0);
                        assert(n[b].0 == objets0[b].0);
                    }
                }
                self.objets.set(t, (id, v));
                true
            },
            None => {
                proof {
                    if contient_id(objets0, id) {
                        lemma_cherche_indice(objets0, id);
                    }
                }
                false
            },
        }
    }

    /// Ajoute un objet sous une identite nouvelle (maximum + 1). Echoue
    /// seulement si l'arene a atteint la borne des identites.
    pub fn ajoute(&mut self, v: Objet) -> (r: Result<u64, crate::Erreur>)
        requires
            ids_bornes(old(self).objets@),
            ids_uniques(old(self).objets@),
        ensures
            final(self).racine == old(self).racine,
            final(self).chiffrement == old(self).chiffrement,
            match r {
                Ok(id) => {
                    &&& final(self).objets@ == old(self).objets@.push((id, v))
                    &&& !contient_id(old(self).objets@, id)
                    &&& 1 <= id < BORNE_ID
                    &&& id as int == maximum_id(old(self).objets@) + 1
                    &&& maximum_id(final(self).objets@) == maximum_id(old(self).objets@) + 1
                    &&& ids_uniques(final(self).objets@)
                    &&& ids_bornes(final(self).objets@)
                    &&& forall|x: u64|
                        #[trigger] cherche_spec(final(self).objets@, x) == if x == id {
                            Some(v)
                        } else {
                            cherche_spec(old(self).objets@, x)
                        }
                },
                Err(e) => {
                    &&& *final(self) == *old(self)
                    &&& e == crate::Erreur::Structurelle
                    &&& maximum_id(old(self).objets@) + 1 >= BORNE_ID
                },
            },
    {
        let ghost objets0 = self.objets@;
        let mut max: u64 = 0;
        let mut i: usize = 0;
        proof {
            assert(objets0.skip(0) =~= objets0);
        }
        while i < self.objets.len()
            invariant
                self.objets@ == objets0,
                ids_bornes(objets0),
                0 <= i <= objets0.len(),
                max < BORNE_ID,
                forall|j: int| 0 <= j < i ==> (#[trigger] objets0[j].0) <= max,
                max == 0 || exists|j: int| 0 <= j < i && (#[trigger] objets0[j].0) == max,
                maximum_id(objets0) == (if max as int >= maximum_id(objets0.skip(i as int)) {
                    max as int
                } else {
                    maximum_id(objets0.skip(i as int))
                }),
            decreases objets0.len() - i,
        {
            proof {
                assert(objets0.skip(i as int)[0] == objets0[i as int]);
                assert(objets0.skip(i as int).drop_first() =~= objets0.skip(i as int + 1));
                lemma_maximum_id(objets0.skip(i as int));
                lemma_maximum_id(objets0.skip(i as int + 1));
            }
            if self.objets[i].0 > max {
                max = self.objets[i].0;
            }
            i = i + 1;
        }
        proof {
            assert(objets0.skip(objets0.len() as int).len() == 0);
        }
        if max >= BORNE_ID - 1 {
            return Err(crate::Erreur::Structurelle);
        }
        let id = max + 1;
        proof {
            assert(forall|j: int| 0 <= j < objets0.len() ==> (#[trigger] objets0[j].0) != id);
            if contient_id(objets0, id) {
                lemma_cherche_indice(objets0, id);
            }
            lemma_cherche_push(objets0, (id, v));
            lemma_maximum_push(objets0, (id, v));
            let n = objets0.push((id, v));
            assert forall|a: int, b: int| 0 <= a < b < n.len() implies (#[trigger] n[a].0) != (
            #[trigger] n[b].0) by {
                if b == objets0.len() {
                    assert(n[a].0 == objets0[a].0);
                    assert(objets0[a].0 <= max);
                } else {
                    assert(n[a].0 == objets0[a].0);
                    assert(n[b].0 == objets0[b].0);
                }
            }
            assert forall|j: int| 0 <= j < n.len() implies 1 <= (#[trigger] n[j].0)
                < BORNE_ID by {
                if j < objets0.len() {
                    assert(n[j].0 == objets0[j].0);
                }
            }
        }
        self.objets.push((id, v));
        Ok(id)
    }
}

/// Premiere valeur associee a `cle` dans des entrees de dictionnaire.
pub fn dict_obtenir<'a>(e: &'a Vec<(String, Objet)>, cle: &str) -> (r: Option<&'a Objet>)
    ensures
        match r {
            Some(o) => valeur_cle(e@, cle@) matches Some(oo) && *o == oo,
            None => valeur_cle(e@, cle@) is None,
        },
{
    proof {
        assert(e@.skip(0) =~= e@);
    }
    let mut i: usize = 0;
    while i < e.len()
        invariant
            0 <= i <= e@.len(),
            valeur_cle(e@, cle@) == valeur_cle(e@.skip(i as int), cle@),
        decreases e@.len() - i,
    {
        proof {
            assert(e@.skip(i as int).drop_first() =~= e@.skip(i as int + 1));
            assert(e@.skip(i as int)[0] == e@[i as int]);
        }
        if e[i].0.as_str().eq(cle) {
            return Some(&e[i].1);
        }
        i = i + 1;
    }
    None
}

} // verus!
verus! {

/// Pose `cle -> v` dans des entrees de dictionnaire : remplace la premiere
/// entree de cette cle, ou ajoute en queue. Les autres cles gardent leur
/// valeur, et toute reference du resultat vient des entrees d'origine ou
/// de `v`.
pub fn dict_definir(e: &mut Vec<(String, Objet)>, cle: &str, v: Objet)
    ensures
        valeur_cle(final(e)@, cle@) matches Some(o) && o == v,
        forall|k: Seq<char>|
            k != cle@ ==> #[trigger] valeur_cle(final(e)@, k) == valeur_cle(old(e)@, k),
        forall|i: int, x: u64|
            0 <= i < final(e)@.len() && #[trigger] ref_de(final(e)@[i].1, x) ==> (ref_de(v, x)
                || exists|j: int| 0 <= j < old(e)@.len() && ref_de(#[trigger] old(e)@[j].1, x)),
        old(e)@.len() <= final(e)@.len() <= old(e)@.len() + 1,
        forall|i: int|
            0 <= i < final(e)@.len() ==> ((i < old(e)@.len() && #[trigger] final(e)@[i] == old(
                e,
            )@[i]) || (final(e)@[i].0@ == cle@ && final(e)@[i].1 == v)),
        exists|i: int|
            0 <= i < final(e)@.len() && (#[trigger] final(e)@[i]).0@ == cle@ && final(e)@[i].1 == v
                && (forall|j: int| 0 <= j < old(e)@.len() && j != i ==> final(e)@[j] == old(e)@[j]),
{
    let ghost e0 = e@;
    let mut trouve: Option<usize> = None;
    let mut i: usize = 0;
    while i < e.len() && trouve.is_none()
        invariant
            e@ == e0,
            0 <= i <= e0.len(),
            match trouve {
                Some(t) => t < e0.len() && e0[t as int].0@ == cle@ && forall|j: int|
                    0 <= j < t ==> (#[trigger] e0[j].0@) != cle@,
                None => forall|j: int| 0 <= j < i ==> (#[trigger] e0[j].0@) != cle@,
            },
        decreases e0.len() - i, (if trouve is None { 1int } else { 0int }),
    {
        if e[i].0.as_str().eq(cle) {
            trouve = Some(i);
        } else {
            i = i + 1;
        }
    }
    let p = (cle.to_owned(), v);
    match trouve {
        Some(t) => {
            proof {
                lemma_valeur_cle_update(e0, t as int, p);
                let n = e0.update(t as int, p);
                assert forall|ii: int, x: u64|
                    0 <= ii < n.len() && #[trigger] ref_de(n[ii].1, x) implies (ref_de(v, x)
                        || exists|j: int| 0 <= j < e0.len() && ref_de(#[trigger] e0[j].1, x)) by {
                    if ii != t {
                        assert(n[ii] == e0[ii]);
                        assert(ref_de(e0[ii].1, x));
                    }
                }
            }
            e.set(t, p);
            proof {
                assert(e@[t as int].0@ == cle@ && e@[t as int].1 == v && (forall|j: int|
                    0 <= j < e0.len() && j != t ==> e@[j] == e0[j]));
            }
        },
        None => {
            proof {
                lemma_valeur_cle_push(e0, p);
                let n = e0.push(p);
                assert forall|ii: int, x: u64|
                    0 <= ii < n.len() && #[trigger] ref_de(n[ii].1, x) implies (ref_de(v, x)
                        || exists|j: int| 0 <= j < e0.len() && ref_de(#[trigger] e0[j].1, x)) by {
                    if ii < e0.len() {
                        assert(n[ii] == e0[ii]);
                        assert(ref_de(e0[ii].1, x));
                    }
                }
            }
            e.push(p);
            proof {
                assert(e@[e0.len() as int].0@ == cle@ && e@[e0.len() as int].1 == v && (forall|
                    j: int,
                |
                    0 <= j < e0.len() && j != e0.len() ==> e@[j] == e0[j]));
            }
        },
    }
}

impl Document {
    /// Les identites des pages, dans l'ordre canonique : celui des enfants
    /// du noeud Pages.
    pub fn pages_ordonnees(&self) -> (v: Vec<u64>)
        requires
            bien_forme(*self),
        ensures
            v@ == pages_spec(*self),
            v@.len() == nombre_pages(*self),
            forall|k: int|
                0 <= k < v@.len() ==> est_dict_de_type(
                    self.objets@,
                    #[trigger] v@[k],
                    "Page"@,
                ),
    {
        let racine = match self.cherche(self.racine) {
            Some(Objet::Dictionnaire(c)) => c,
            _ => {
                proof {
                    assert(false);
                }
                return Vec::new();
            },
        };
        let p = match dict_obtenir(racine, "Pages") {
            Some(Objet::Reference(p)) => *p,
            _ => {
                proof {
                    assert(false);
                }
                return Vec::new();
            },
        };
        proof {
            assert(id_pages(*self) == Some(p));
        }
        let noeud = match self.cherche(p) {
            Some(Objet::Dictionnaire(pe)) => pe,
            _ => {
                proof {
                    assert(false);
                }
                return Vec::new();
            },
        };
        let kids = match dict_obtenir(noeud, "Kids") {
            Some(Objet::Tableau(t)) => t,
            _ => {
                proof {
                    assert(false);
                }
                return Vec::new();
            },
        };
        let ghost kk = kids@;
        let mut v: Vec<u64> = Vec::new();
        let mut i: usize = 0;
        while i < kids.len()
            invariant
                kids@ == kk,
                kk =~= kids_de(*self),
                bien_forme(*self),
                0 <= i <= kk.len(),
                v@.len() == i,
                forall|k: int| 0 <= k < i ==> (#[trigger] v@[k]) == kk[k]->Reference_0,
            decreases kk.len() - i,
        {
            match &kids[i] {
                Objet::Reference(r) => {
                    v.push(*r);
                },
                _ => {
                    proof {
                        assert(kk[i as int] matches Objet::Reference(_));
                        assert(false);
                    }
                },
            }
            i = i + 1;
        }
        proof {
            assert(v@ =~= pages_spec(*self));
            assert forall|k: int| 0 <= k < v@.len() implies est_dict_de_type(
                self.objets@,
                #[trigger] v@[k],
                "Page"@,
            ) by {
                assert(kids_de(*self)[k] matches Objet::Reference(r) && est_dict_de_type(
                    self.objets@,
                    r,
                    "Page"@,
                ));
            }
        }
        v
    }
}

} // verus!

verus! {

/// Equivalence structurelle au niveau des vues : memes formes, memes
/// contenus, memes references. C'est la relation que produit une copie
/// profonde.
pub open spec fn egal_vue(a: Objet, b: Objet) -> bool
    decreases a,
{
    match (a, b) {
        (Objet::Nul, Objet::Nul) => true,
        (Objet::Booleen(x), Objet::Booleen(y)) => x == y,
        (Objet::Entier(x), Objet::Entier(y)) => x == y,
        (Objet::Reel(x), Objet::Reel(y)) => x == y,
        (Objet::Chaine(x), Objet::Chaine(y)) => x@ == y@,
        (Objet::Nom(x), Objet::Nom(y)) => x@ == y@,
        (Objet::Tableau(x), Objet::Tableau(y)) => x@.len() == y@.len() && (forall|i: int|
            0 <= i < x@.len() ==> egal_vue(#[trigger] x@[i], y@[i])),
        (Objet::Dictionnaire(x), Objet::Dictionnaire(y)) => egal_vue_entrees(x@, y@),
        (Objet::Flux(x, dx), Objet::Flux(y, dy)) => egal_vue_entrees(x@, y@) && dx@ == dy@,
        (Objet::Reference(x), Objet::Reference(y)) => x == y,
        _ => false,
    }
}

pub open spec fn egal_vue_entrees(x: Seq<(String, Objet)>, y: Seq<(String, Objet)>) -> bool
    decreases x,
{
    x.len() == y.len() && (forall|i: int|
        0 <= i < x.len() ==> (#[trigger] x[i]).0@ == y[i].0@ && egal_vue(x[i].1, y[i].1))
}

/// L'equivalence de vues est reflexive.
pub proof fn lemma_egal_vue_refl(a: Objet)
    ensures
        egal_vue(a, a),
    decreases a,
{
    match a {
        Objet::Tableau(x) => {
            assert forall|i: int| 0 <= i < x@.len() implies egal_vue(#[trigger] x@[i], x@[i]) by {
                assert(decreases_to!(a => a->Tableau_0));
                assert(decreases_to!(x => x[i]));
                lemma_egal_vue_refl(x@[i]);
            }
            assert(egal_vue(a, a));
        },
        Objet::Dictionnaire(x) => {
            assert forall|i: int|
                0 <= i < x@.len() implies (#[trigger] x@[i]).0@ == x@[i].0@ && egal_vue(
                x@[i].1,
                x@[i].1,
            ) by {
                assert(decreases_to!(a => a->Dictionnaire_0));
                assert(decreases_to!(x => x[i]));
                assert(decreases_to!(x[i] => x[i].1));
                lemma_egal_vue_refl(x@[i].1);
            }
            assert(egal_vue_entrees(x@, x@));
            assert(egal_vue(a, a));
        },
        Objet::Flux(x, _) => {
            assert forall|i: int|
                0 <= i < x@.len() implies (#[trigger] x@[i]).0@ == x@[i].0@ && egal_vue(
                x@[i].1,
                x@[i].1,
            ) by {
                assert(decreases_to!(a => a->Flux_0));
                assert(decreases_to!(x => x[i]));
                assert(decreases_to!(x[i] => x[i].1));
                lemma_egal_vue_refl(x@[i].1);
            }
            assert(egal_vue_entrees(x@, x@));
            assert(egal_vue(a, a));
        },
        _ => {
            assert(egal_vue(a, a));
        },
    }
}

/// L'equivalence d'entrees est reflexive.
pub proof fn lemma_egal_vue_entrees_refl(e: Seq<(String, Objet)>)
    ensures
        egal_vue_entrees(e, e),
{
    assert forall|i: int|
        0 <= i < e.len() implies (#[trigger] e[i]).0@ == e[i].0@ && egal_vue(e[i].1, e[i].1) by {
        lemma_egal_vue_refl(e[i].1);
    }
}

/// Des entrees equivalentes donnent des recherches equivalentes, cle a cle.
pub proof fn lemma_egal_vue_valeur_cle(x: Seq<(String, Objet)>, y: Seq<(String, Objet)>)
    requires
        egal_vue_entrees(x, y),
    ensures
        forall|k: Seq<char>| option_egal_vue(#[trigger] valeur_cle(x, k), valeur_cle(y, k)),
    decreases x.len(),
{
    if x.len() > 0 {
        assert(egal_vue_entrees(x.drop_first(), y.drop_first())) by {
            assert forall|i: int|
                0 <= i < x.drop_first().len() implies (#[trigger] x.drop_first()[i]).0@
                == y.drop_first()[i].0@ && egal_vue(x.drop_first()[i].1, y.drop_first()[i].1) by {
                assert(x.drop_first()[i] == x[i + 1]);
                assert(y.drop_first()[i] == y[i + 1]);
            }
        }
        lemma_egal_vue_valeur_cle(x.drop_first(), y.drop_first());
        assert(x[0].0@ == y[0].0@);
        assert forall|k: Seq<char>| option_egal_vue(
            #[trigger] valeur_cle(x, k),
            valeur_cle(y, k),
        ) by {
            if x[0].0@ == k {
                assert(egal_vue(x[0].1, y[0].1));
            } else {
                assert(option_egal_vue(valeur_cle(x.drop_first(), k), valeur_cle(y.drop_first(), k)));
            }
        }
    } else {
        assert(y.len() == 0);
    }
}

/// L'equivalence de vues est transitive.
pub proof fn lemma_egal_vue_trans(a: Objet, b: Objet, c: Objet)
    requires
        egal_vue(a, b),
        egal_vue(b, c),
    ensures
        egal_vue(a, c),
    decreases a,
{
    match (a, b, c) {
        (Objet::Tableau(ta), Objet::Tableau(tb), Objet::Tableau(tc)) => {
            assert(ta@.len() == tb@.len() && tb@.len() == tc@.len());
            assert forall|i: int| 0 <= i < ta@.len() implies egal_vue(
                #[trigger] ta@[i],
                tc@[i],
            ) by {
                assert(decreases_to!(a => a->Tableau_0));
                assert(decreases_to!(ta => ta[i]));
                assert(egal_vue(ta@[i], tb@[i]) && egal_vue(tb@[i], tc@[i]));
                lemma_egal_vue_trans(ta@[i], tb@[i], tc@[i]);
            }
            assert(egal_vue(a, c));
        },
        (Objet::Dictionnaire(ta), Objet::Dictionnaire(tb), Objet::Dictionnaire(tc)) => {
            assert(egal_vue_entrees(ta@, tb@) && egal_vue_entrees(tb@, tc@));
            assert(ta@.len() == tb@.len() && tb@.len() == tc@.len());
            assert forall|i: int|
                0 <= i < ta@.len() implies (#[trigger] ta@[i]).0@ == tc@[i].0@ && egal_vue(
                ta@[i].1,
                tc@[i].1,
            ) by {
                assert(decreases_to!(a => a->Dictionnaire_0));
                assert(decreases_to!(ta => ta[i]));
                assert(decreases_to!(ta[i] => ta[i].1));
                assert((ta@[i]).0@ == tb@[i].0@ && egal_vue(ta@[i].1, tb@[i].1));
                assert((tb@[i]).0@ == tc@[i].0@ && egal_vue(tb@[i].1, tc@[i].1));
                lemma_egal_vue_trans(ta@[i].1, tb@[i].1, tc@[i].1);
            }
            assert(egal_vue_entrees(ta@, tc@));
            assert(egal_vue(a, c));
        },
        (Objet::Flux(ta, _), Objet::Flux(tb, _), Objet::Flux(tc, _)) => {
            assert(egal_vue_entrees(ta@, tb@) && egal_vue_entrees(tb@, tc@));
            assert(ta@.len() == tb@.len() && tb@.len() == tc@.len());
            assert forall|i: int|
                0 <= i < ta@.len() implies (#[trigger] ta@[i]).0@ == tc@[i].0@ && egal_vue(
                ta@[i].1,
                tc@[i].1,
            ) by {
                assert(decreases_to!(a => a->Flux_0));
                assert(decreases_to!(ta => ta[i]));
                assert(decreases_to!(ta[i] => ta[i].1));
                assert((ta@[i]).0@ == tb@[i].0@ && egal_vue(ta@[i].1, tb@[i].1));
                assert((tb@[i]).0@ == tc@[i].0@ && egal_vue(tb@[i].1, tc@[i].1));
                lemma_egal_vue_trans(ta@[i].1, tb@[i].1, tc@[i].1);
            }
            assert(egal_vue_entrees(ta@, tc@));
            assert(egal_vue(a, c));
        },
        _ => {
            assert(egal_vue(a, c));
        },
    }
}

/// L'equivalence d'entrees est transitive.
pub proof fn lemma_egal_vue_entrees_trans(
    a: Seq<(String, Objet)>,
    b: Seq<(String, Objet)>,
    c: Seq<(String, Objet)>,
)
    requires
        egal_vue_entrees(a, b),
        egal_vue_entrees(b, c),
    ensures
        egal_vue_entrees(a, c),
{
    assert(a.len() == b.len() && b.len() == c.len());
    assert forall|i: int|
        0 <= i < a.len() implies (#[trigger] a[i]).0@ == c[i].0@ && egal_vue(a[i].1, c[i].1) by {
        assert((a[i]).0@ == b[i].0@ && egal_vue(a[i].1, b[i].1));
        assert((b[i]).0@ == c[i].0@ && egal_vue(b[i].1, c[i].1));
        lemma_egal_vue_trans(a[i].1, b[i].1, c[i].1);
    }
}

/// L'equivalence optionnelle est transitive.
pub proof fn lemma_option_egal_trans(a: Option<Objet>, b: Option<Objet>, c: Option<Objet>)
    requires
        option_egal_vue(a, b),
        option_egal_vue(b, c),
    ensures
        option_egal_vue(a, c),
{
    match (a, b, c) {
        (Some(x), Some(y), Some(z)) => {
            lemma_egal_vue_trans(x, y, z);
        },
        _ => {},
    }
}

/// Deux objets equivalents portent exactement les memes references.
pub proof fn lemma_egal_vue_refs(a: Objet, b: Objet)
    requires
        egal_vue(a, b),
    ensures
        forall|x: u64| #[trigger] ref_de(a, x) == ref_de(b, x),
    decreases a,
{
    match (a, b) {
        (Objet::Tableau(ta), Objet::Tableau(tb)) => {
            assert forall|x: u64| #[trigger] ref_de(a, x) == ref_de(b, x) by {
                assert(decreases_to!(a => a->Tableau_0));
                assert(ta@.len() == tb@.len());
                if ref_de(a, x) {
                    let i = choose|i: int| 0 <= i < ta@.len() && ref_de(ta@[i], x);
                    assert(egal_vue(ta@[i], tb@[i]));
                    assert(decreases_to!(ta => ta[i]));
                    lemma_egal_vue_refs(ta@[i], tb@[i]);
                    assert(ref_de(tb@[i], x));
                    assert(ref_de(b, x));
                }
                if ref_de(b, x) {
                    let i = choose|i: int| 0 <= i < tb@.len() && ref_de(tb@[i], x);
                    assert(egal_vue(ta@[i], tb@[i]));
                    assert(decreases_to!(ta => ta[i]));
                    lemma_egal_vue_refs(ta@[i], tb@[i]);
                    assert(ref_de(ta@[i], x));
                    assert(ref_de(a, x));
                }
            }
        },
        (Objet::Dictionnaire(ta), Objet::Dictionnaire(tb)) => {
            assert forall|x: u64| #[trigger] ref_de(a, x) == ref_de(b, x) by {
                assert(decreases_to!(a => a->Dictionnaire_0));
                assert(egal_vue_entrees(ta@, tb@));
                assert(ta@.len() == tb@.len());
                if ref_de(a, x) {
                    let i = choose|i: int| 0 <= i < ta@.len() && ref_de(ta@[i].1, x);
                    assert((ta@[i]).0@ == tb@[i].0@ && egal_vue(ta@[i].1, tb@[i].1));
                    assert(decreases_to!(ta => ta[i]));
                    assert(decreases_to!(ta[i] => ta[i].1));
                    lemma_egal_vue_refs(ta@[i].1, tb@[i].1);
                    assert(ref_de(tb@[i].1, x));
                    assert(ref_de(b, x));
                }
                if ref_de(b, x) {
                    let i = choose|i: int| 0 <= i < tb@.len() && ref_de(tb@[i].1, x);
                    assert((ta@[i]).0@ == tb@[i].0@ && egal_vue(ta@[i].1, tb@[i].1));
                    assert(decreases_to!(ta => ta[i]));
                    assert(decreases_to!(ta[i] => ta[i].1));
                    lemma_egal_vue_refs(ta@[i].1, tb@[i].1);
                    assert(ref_de(ta@[i].1, x));
                    assert(ref_de(a, x));
                }
            }
        },
        (Objet::Flux(ta, _), Objet::Flux(tb, _)) => {
            assert forall|x: u64| #[trigger] ref_de(a, x) == ref_de(b, x) by {
                assert(decreases_to!(a => a->Flux_0));
                assert(egal_vue_entrees(ta@, tb@));
                assert(ta@.len() == tb@.len());
                if ref_de(a, x) {
                    let i = choose|i: int| 0 <= i < ta@.len() && ref_de(ta@[i].1, x);
                    assert((ta@[i]).0@ == tb@[i].0@ && egal_vue(ta@[i].1, tb@[i].1));
                    assert(decreases_to!(ta => ta[i]));
                    assert(decreases_to!(ta[i] => ta[i].1));
                    lemma_egal_vue_refs(ta@[i].1, tb@[i].1);
                    assert(ref_de(tb@[i].1, x));
                    assert(ref_de(b, x));
                }
                if ref_de(b, x) {
                    let i = choose|i: int| 0 <= i < tb@.len() && ref_de(tb@[i].1, x);
                    assert((ta@[i]).0@ == tb@[i].0@ && egal_vue(ta@[i].1, tb@[i].1));
                    assert(decreases_to!(ta => ta[i]));
                    assert(decreases_to!(ta[i] => ta[i].1));
                    lemma_egal_vue_refs(ta@[i].1, tb@[i].1);
                    assert(ref_de(ta@[i].1, x));
                    assert(ref_de(a, x));
                }
            }
        },
        _ => {},
    }
}

pub open spec fn option_egal_vue(a: Option<Objet>, b: Option<Objet>) -> bool {
    match (a, b) {
        (Some(x), Some(y)) => egal_vue(x, y),
        (None, None) => true,
        _ => false,
    }
}

/// Copie profonde d'une valeur d'objet.
#[verifier::loop_isolation(false)]
pub fn copie_objet(o: &Objet) -> (r: Objet)
    ensures
        egal_vue(r, *o),
    decreases *o, 1int,
{
    match o {
        Objet::Nul => Objet::Nul,
        Objet::Booleen(b) => Objet::Booleen(*b),
        Objet::Entier(n) => Objet::Entier(*n),
        Objet::Reel(n) => Objet::Reel(*n),
        Objet::Chaine(c) => Objet::Chaine(copie_octets(c)),
        Objet::Nom(n) => Objet::Nom(n.clone()),
        Objet::Tableau(t) => {
            proof {
                assert(decreases_to!(*o => o->Tableau_0));
            }
            let mut nv: Vec<Objet> = Vec::new();
            let mut i: usize = 0;
            while i < t.len()
                invariant
                    nv@.len() == i,
                    0 <= i <= t@.len(),
                    forall|j: int| 0 <= j < i ==> egal_vue(#[trigger] nv@[j], t@[j]),
                decreases t@.len() - i,
            {
                proof {
                    assert(decreases_to!(*t => t[i as int]));
                    assert(decreases_to!(*o => t[i as int]));
                }
                let c = copie_objet(&t[i]);
                nv.push(c);
                i = i + 1;
            }
            Objet::Tableau(nv)
        },
        Objet::Dictionnaire(e) => {
            proof {
                assert(decreases_to!(*o => o->Dictionnaire_0));
            }
            Objet::Dictionnaire(copie_entrees_interne(e, Ghost(*o)))
        },
        Objet::Flux(e, donnees) => {
            proof {
                assert(decreases_to!(*o => o->Flux_0));
            }
            Objet::Flux(copie_entrees_interne(e, Ghost(*o)), copie_octets(donnees))
        },
        Objet::Reference(id) => Objet::Reference(*id),
    }
}

/// Copie d'une suite d'octets.
pub fn copie_octets(c: &Vec<u8>) -> (r: Vec<u8>)
    ensures
        r@ == c@,
{
    let r = c.clone();
    proof {
        assert(r@ =~= c@);
    }
    r
}

/// Copie profonde d'entrees de dictionnaire ; `englobant` est l'objet qui
/// les porte, temoin de terminaison.
#[verifier::loop_isolation(false)]
fn copie_entrees_interne(e: &Vec<(String, Objet)>, englobant: Ghost<Objet>) -> (r: Vec<
    (String, Objet),
>)
    requires
        decreases_to!(englobant@ => *e),
    ensures
        egal_vue_entrees(r@, e@),
    decreases englobant@, 0int,
{
    let mut nv: Vec<(String, Objet)> = Vec::new();
    let mut i: usize = 0;
    while i < e.len()
        invariant
            nv@.len() == i,
            0 <= i <= e@.len(),
            forall|j: int|
                0 <= j < i ==> (#[trigger] nv@[j]).0@ == e@[j].0@ && egal_vue(nv@[j].1, e@[j].1),
        decreases e@.len() - i,
    {
        proof {
            assert(decreases_to!(*e => e[i as int]));
            assert(decreases_to!(e[i as int] => e[i as int].1));
            assert(decreases_to!(englobant@ => e[i as int].1));
        }
        let c = copie_objet(&e[i].1);
        nv.push((e[i].0.clone(), c));
        i = i + 1;
    }
    nv
}

/// Copie profonde d'entrees de dictionnaire autonomes.
pub fn copie_entrees(e: &Vec<(String, Objet)>) -> (r: Vec<(String, Objet)>)
    ensures
        egal_vue_entrees(r@, e@),
{
    let mut nv: Vec<(String, Objet)> = Vec::new();
    let mut i: usize = 0;
    while i < e.len()
        invariant
            nv@.len() == i,
            0 <= i <= e@.len(),
            forall|j: int|
                0 <= j < i ==> (#[trigger] nv@[j]).0@ == e@[j].0@ && egal_vue(nv@[j].1, e@[j].1),
        decreases e@.len() - i,
    {
        let c = copie_objet(&e[i].1);
        nv.push((e[i].0.clone(), c));
        i = i + 1;
    }
    nv
}

} // verus!

verus! {

/// Retire la valeur de l'objet `id` et laisse `Nul` a sa place : la phase
/// de resolution du schema resoudre-copier-valider. La valeur revient par
/// `remplace` une fois retravaillee.
pub fn prend(d: &mut Document, id: u64) -> (r: Option<Objet>)
    requires
        ids_uniques(old(d).objets@),
    ensures
        final(d).racine == old(d).racine,
        final(d).chiffrement == old(d).chiffrement,
        final(d).objets@.len() == old(d).objets@.len(),
        ids_uniques(final(d).objets@),
        forall|i: int|
            0 <= i < old(d).objets@.len() ==> (#[trigger] final(d).objets@[i]).0
                == old(d).objets@[i].0,
        match r {
            Some(v) => {
                &&& cherche_spec(old(d).objets@, id) == Some(v)
                &&& forall|i: int|
                    0 <= i < old(d).objets@.len() ==> (#[trigger] final(d).objets@[i]) == old(
                        d,
                    ).objets@[i] || (final(d).objets@[i].0 == id && final(d).objets@[i].1
                        == Objet::Nul)
                &&& forall|x: u64|
                    #[trigger] cherche_spec(final(d).objets@, x) == if x == id {
                        Some(Objet::Nul)
                    } else {
                        cherche_spec(old(d).objets@, x)
                    }
            },
            None => {
                &&& *final(d) == *old(d)
                &&& !contient_id(old(d).objets@, id)
            },
        },
{
    let ghost objets0 = d.objets@;
    let mut trouve: Option<usize> = None;
    let mut i: usize = 0;
    while i < d.objets.len() && trouve.is_none()
        invariant
            d.objets@ == objets0,
            0 <= i <= objets0.len(),
            match trouve {
                Some(t) => t < objets0.len() && objets0[t as int].0 == id && forall|j: int|
                    0 <= j < t ==> (#[trigger] objets0[j].0) != id,
                None => forall|j: int| 0 <= j < i ==> (#[trigger] objets0[j].0) != id,
            },
        decreases objets0.len() - i, (if trouve is None { 1int } else { 0int }),
    {
        if d.objets[i].0 == id {
            trouve = Some(i);
        } else {
            i = i + 1;
        }
    }
    match trouve {
        Some(t) => {
            proof {
                lemma_cherche_update(objets0, t as int, (id, Objet::Nul));
                lemma_cherche_unique(objets0, t as int);
                let n = objets0.update(t as int, (id, Objet::Nul));
                assert forall|a: int, b: int| 0 <= a < b < n.len() implies (#[trigger] n[a].0) != (
                #[trigger] n[b].0) by {
                    assert(n[a].0 == objets0[a].0);
                    assert(n[b].0 == objets0[b].0);
                }
            }
            let mut portee: (u64, Objet) = (id, Objet::Nul);
            vstd::pervasive::VecAdditionalExecFns::set_and_swap(&mut d.objets, t, &mut portee);
            Some(portee.1)
        },
        None => {
            proof {
                if contient_id(objets0, id) {
                    lemma_cherche_indice(objets0, id);
                }
            }
            None
        },
    }
}

} // verus!
