//! Fixture-driven runs of the paginated-API scraper, checked against the
//! full calendars the listing is expected to yield.

use metal_calendar::calendar::{Month, Release};
use metal_calendar::client::Client;
use metal_calendar::error::Error;
use metal_calendar::metallum::{scrape, MetallumReleases};
use metal_calendar::wiki::WikiDoc;

struct FixtureClient {
    pages: Vec<Vec<Vec<String>>>,
}

impl Client for FixtureClient {
    fn fetch_document(&self, _year: i32) -> Result<WikiDoc, Error> {
        Err(Error::RequestFail)
    }

    fn fetch_metallum(&self, page: u16) -> Option<MetallumReleases> {
        let batch = self.pages.get(page as usize)?;
        Some(MetallumReleases {
            total_records: 0,
            total_display_records: 0,
            data: batch.clone(),
        })
    }

    fn get_bandcamp_link(&self, _artist: &str) -> Option<String> {
        None
    }
}

fn escape_html(s: &str) -> String {
    s.replace('&', "&amp;").replace('<', "&lt;").replace('>', "&gt;")
}

fn month_name(m: Month) -> &'static str {
    match m {
        Month::January => "January",
        Month::February => "February",
        Month::March => "March",
        Month::April => "April",
        Month::May => "May",
        Month::June => "June",
        Month::July => "July",
        Month::August => "August",
        Month::September => "September",
        Month::October => "October",
        Month::November => "November",
        Month::December => "December",
    }
}

fn ordinal(day: u8) -> &'static str {
    if day % 10 == 1 && day != 11 {
        "st"
    } else if day % 10 == 2 && day != 12 {
        "nd"
    } else if day % 10 == 3 && day != 13 {
        "rd"
    } else {
        "th"
    }
}

fn record(artist: &str, album: &str, month: Month, day: u8, year: i32) -> Vec<String> {
    vec![
        format!("<a href=\"https://bands.example/x\">{}</a>", escape_html(artist)),
        format!("<a href=\"https://albums.example/x\">{}</a>", escape_html(album)),
        String::from("Full-length"),
        String::from("Heavy Metal"),
        format!("{} {}{}, {}", month_name(month), day, ordinal(day), year),
        String::new(),
    ]
}

fn run_scrape(entries: &[(Month, u8, &str, &str)], year: i32) {
    let mut pages: Vec<Vec<Vec<String>>> = Vec::new();
    let mut batch: Vec<Vec<String>> = Vec::new();
    for &(m, d, artist, album) in entries {
        batch.push(record(artist, album, m, d, year));
        if batch.len() == 100 {
            pages.push(std::mem::take(&mut batch));
        }
    }
    if !batch.is_empty() {
        pages.push(batch);
    }
    let client = FixtureClient { pages };
    let got = scrape(&client, year).expect("scrape should succeed");
    assert_eq!(got.year, year);
    let mut keys: Vec<(Month, u8)> = Vec::new();
    for &(m, d, _, _) in entries {
        if !keys.contains(&(m, d)) {
            keys.push((m, d));
        }
    }
    for &(m, d) in &keys {
        let want: Vec<Release> = entries
            .iter()
            .filter(|e| e.0 == m && e.1 == d)
            .map(|e| Release::new(e.2, e.3))
            .collect();
        let got_rs = got.get_releases(m, d).expect("day should be present");
        assert_eq!(got_rs, &want, "releases at {:?} {}", m, d);
    }
}

#[test]
fn metallum_test_2024_calendar_ok() {
    let entries: Vec<(Month, u8, &str, &str)> = vec![
        (Month::October, 9, "Threshold", "Concert in London | London Astoria 2 | 1999"),
        (Month::October, 9, "Fyrgast", "Frozen in time"),
        (Month::October, 9, "Templar", "I Natt"),
        (Month::October, 9, "Morbid Invocation", "Opus I"),
        (Month::October, 9, "Phyllomedusa", "Hope Floats"),
        (Month::October, 9, "Hazzerd", "Deathbringer"),
        (Month::October, 9, "Död Sol", "På drift i v​ä​st"),
        (Month::October, 10, "Rise of Kronos", "Imperium"),
        (Month::October, 10, "Aydra", "Leave to Nowhere"),
        (Month::October, 10, "Pandemmy", "Faithless"),
        (Month::October, 10, "Pyracanda", "Losing Faith"),
        (Month::October, 10, "Demon Sacrifice", "Under the Blacklight of Divine Live"),
        (Month::October, 10, "Patxa", "Just Heavy Metal"),
        (Month::October, 10, "Regicide", "Eternal Siege"),
        (Month::October, 10, "Dream Ocean", "A Chilling Show"),
        (Month::October, 10, "Griefsoul", "Extreme Northern Griefmetal"),
        (Month::October, 10, "Epäkristus", "Satan, Sex and War - The Demo Compilation"),
        (Month::October, 10, "Dustborn", "Unconcealed Atrocities"),
        (Month::October, 11, "Knightsune", "Fearless"),
        (Month::October, 11, "Andy Gillion", "Exilium"),
        (Month::October, 11, "Vomit Forth", "Terrified of God"),
        (Month::October, 11, "Kozoria", "The Source"),
        (Month::October, 11, "Malasorte", "Apex Sovereignty"),
        (Month::October, 11, "Rifftera", "Coda"),
        (Month::October, 11, "Hell Is Other People", "Moirae"),
        (Month::October, 11, "Ad Infinitum", "Abyss"),
        (Month::October, 11, "Dragony", "Hic Svnt Dracones"),
        (Month::October, 11, "Oranssi Pazuzu", "Muuntautuja"),
        (Month::October, 11, "Nightmare", "Waiting for the Power - The Early Years"),
        (Month::October, 11, "English Dogs", "Mad Punx & English Dogs 1983-1985"),
        (Month::October, 11, "Decayed Existence", "The Beginning of Sorrows"),
        (Month::October, 11, "Ana Argan List", "Irrbloss"),
        (Month::October, 11, "The Mist from the Mountains", "Portal - The Gathering of Storms"),
        (Month::October, 11, "Barathrum", "Überkill"),
        (Month::October, 11, "Amputate", "Abysmal Ascent"),
        (Month::October, 11, "The Crown", "Crown of Thorns"),
        (Month::October, 11, "Speedrush", "Division Mortality"),
        (Month::October, 11, "Master Boot Record", "Hardwarez"),
        (Month::October, 11, "A Constant Knowledge of Death", "Appendix I: Revisions & Annotations"),
        (Month::October, 11, "My Dearest Wound", "The Weight of Life Was Greater"),
        (Month::October, 11, "Maitreya", "Auxesis"),
        (Month::October, 11, "Fupa Goddess", "Fuckyourface"),
        (Month::October, 11, "Krvl", "Donkere paden"),
        (Month::October, 11, "Thanateros", "Tranceforming"),
        (Month::October, 11, "The Sword", "Live at LEVITATION"),
        (Month::October, 11, "Alarum", "Imperative"),
        (Month::October, 11, "Alias Noone", "Weight of the World"),
        (Month::October, 11, "Psychiatric Regurgitation", "Death Scriptures"),
        (Month::October, 11, "Bazooka Troopaz", "The Booze Hounds of Hades"),
        (Month::October, 11, "Motörhead", "The Bomber Demos"),
        (Month::October, 11, "Membrance", "Undead Remains"),
        (Month::October, 11, "Star Rider", "Outta Time"),
        (Month::October, 11, "Ornamentos del Miedo", "Sueños"),
        (Month::October, 11, "Wrathprayer", "Enkoimeterion"),
        (Month::October, 11, "Roots of Disease", "Saligia Speculum"),
        (Month::October, 11, "Arcania", "Lost Generation"),
        (Month::October, 11, "Scumripper", "For a Few Fixes More"),
        (Month::October, 11, "Cytotoxin", "Hope Terminator"),
        (Month::October, 11, "Oda", "Bloodstained"),
        (Month::October, 11, "Konatus", "Psikoz"),
        (Month::October, 11, "Epiklesis", "La Santa Iglesia Cat​ó​lica"),
        (Month::October, 11, "Klynt", "Thunderous"),
        (Month::October, 11, "Druid Stone", "\"Missing Girl\" b/w \"Satellite\""),
        (Month::October, 11, "Timo Tolkki", "Stratovarius: 4th Dimension Demos"),
        (Month::October, 12, "Rüsty Diamönds", "Stormbringer"),
        (Month::October, 12, "For the Storms", "Losing What's Left of Us"),
        (Month::October, 12, "Godsin", "Blind Faith"),
        (Month::October, 12, "Delta", "Gemini"),
        (Month::October, 12, "Genital Grinder", "Anthology: Tricennium Reckoning"),
        (Month::October, 12, "Vitriolic", "Black Steel Vengeance"),
        (Month::October, 12, "Skull Servant", "Sepulcher of Barbarians"),
        (Month::October, 13, "Scars of Solitude", "Under Disheartening Skies"),
        (Month::October, 13, "Bál", "Nagyobb n\u{200b}á\u{200b}lam"),
        (Month::October, 13, "Morbus Kinski", "Blunt Force Boogey"),
        (Month::October, 15, "Blood Red Fog / Verge", "Prism of Darkness / Second Mortification"),
        (Month::October, 15, "War Dogs", "Only the Stars Are Left"),
        (Month::October, 15, "Bloodrust / Regicide", "Through Death We Reign"),
        (Month::October, 15, "Mortem", "Ilusión de sangre Pre-demo 1988"),
        (Month::October, 17, "Korkvak", "The Hermetic Ritual"),
        (Month::October, 17, "Ghostheart Nebula", "Blackshift"),
        (Month::October, 17, "Winter Lantern", "Hymne to a Dismal Starre"),
        (Month::October, 17, "Harvestman", "Triptych: Part Three"),
        (Month::October, 17, "Dianne", "Flameborn"),
        (Month::October, 17, "Oannes", "Spiders Crawl in the Abode of Enki (An Key to Absu; The Threshold of Mystery)"),
        (Month::October, 18, "Obnoxious Youth", "Burning Savage"),
        (Month::October, 18, "Ensiferum", "Winter Storm"),
        (Month::October, 18, "The Resilient Dream Project", "Te recordaré"),
        (Month::October, 18, "Funeral", "Gospel of Bones"),
        (Month::October, 18, "Capilla Ardiente", "Where Gods Live and Men Die"),
        (Month::October, 18, "Cortez", "Thieves and Charlatans"),
        (Month::October, 18, "Jewel Throne", "Blood Vultures"),
        (Month::October, 18, "Grand Magus", "Sunraven"),
        (Month::October, 18, "Jerry Cantrell", "I Want Blood"),
        (Month::October, 18, "Camos", "Hide from the Light"),
        (Month::October, 18, "Astral Doors", "The End of It All"),
        (Month::October, 18, "Feral", "To Usurp the Thrones"),
        (Month::October, 18, "Crest of Darkness", "My Ghost"),
        (Month::October, 18, "Chrysalïd", "Breaking the Chains"),
        (Month::October, 18, "Veonity", "The Final Element"),
        (Month::October, 18, "Fate", "Reconnect 'n Ignite"),
        (Month::October, 18, "Frozen Crown", "War Hearts"),
        (Month::October, 18, "Nolove", "Corpse Bride"),
        (Month::October, 18, "Swallow the Sun", "Shining"),
        (Month::October, 18, "Bonjour Tristesse", "The World Without Us"),
        (Month::October, 18, "Carnosus", "Wormtales"),
        (Month::October, 18, "Immortal Bird", "Sin Querencia"),
        (Month::October, 18, "Mother of Graves", "The Periapt of Absence"),
        (Month::October, 18, "Ashen Tomb", "Ecstatic Death Reign"),
        (Month::October, 18, "Harsh Realm", "Death Carries On"),
        (Month::October, 18, "Five the Hierophant", "Apeiron"),
        (Month::October, 18, "The Hypothesis", "Evolve"),
        (Month::October, 18, "Wreck-Defy", "Dissecting the Leech"),
        (Month::October, 18, "Oryx", "Primordial Sky"),
        (Month::October, 18, "Vanik", "IV"),
        (Month::October, 18, "Gorebringer", "Condemned to Suffer"),
        (Month::October, 18, "DGM", "Endless"),
        (Month::October, 18, "Destruktor", "Indomitable"),
        (Month::October, 18, "Clot", "Dehiscence"),
        (Month::October, 18, "Persecutory", "The Glorious Persecution"),
        (Month::October, 18, "Deathrite", "Flames Licking Fever"),
        (Month::October, 18, "Contrition", "Pariahs"),
        (Month::October, 18, "Seid", "Hymns to the Norse"),
        (Month::October, 18, "Deserts of Mars", "Dead Planet Exodus"),
        (Month::October, 18, "Fórn", "Repercussions of the Self"),
        (Month::October, 18, "Aethyrick / Marras", "A Union of Spectres"),
        (Month::October, 18, "Porenut", "Zaklęcie"),
        (Month::October, 18, "Weeping", "Spiritual Barbarism"),
        (Month::October, 18, "Dawnwalker", "The Unknowing"),
        (Month::October, 18, "Onslaught Kommand", "Malignancy"),
        (Month::October, 18, "Maatkare", "Rise to Power"),
        (Month::October, 18, "Synthwailer", "Cry Waterfalls"),
        (Month::October, 18, "Torn from the Womb", "Final Improvement Operation Symposium: Terminal Epicrise, vol. I - IV"),
        (Month::October, 18, "Disentomb", "Nothing Above"),
        (Month::October, 18, "Kreyl", "Obscure Rise of Ancient Eulogy"),
        (Month::October, 18, "Damnations Domain", "The God of Blood"),
        (Month::October, 18, "Admire the Grim", "Crescent Moon"),
        (Month::October, 18, "Royal Glam", "Shields Ain't Gunna Save Ya"),
        (Month::October, 18, "Deivos", "Apophenia"),
        (Month::October, 18, "Ixion", "Regeneration"),
        (Month::October, 18, "Wormrot", "Left to Rot"),
        (Month::October, 18, "Valac", "Under the Ophidians Curse"),
        (Month::October, 18, "Cursed Cemetery", "Magma Transmigration"),
        (Month::October, 18, "Djevel", "Under nattens fane i Fandens prakt"),
        (Month::October, 18, "Outworld", "Way of the Samurai"),
        (Month::October, 18, "Distrüster", "Obscurum Per Obscurius"),
        (Month::October, 19, "Inche Kai Che", "Transmutar"),
        (Month::October, 20, "Silhouette", "Les dires de l'âme"),
        (Month::October, 20, "Infernal Cult", "Necessity of Unreal"),
        (Month::October, 20, "Bewitcher", "The Warrior Trail"),
        (Month::October, 20, "Silent Requiem", "Alice: Un Cuento de Luz y Sombras"),
        (Month::October, 20, "Kiko Loureiro", "Theory of Mind"),
        (Month::October, 21, "Reckless Manslaughter", "Sinking into Filth"),
        (Month::October, 21, "Midnightmares", "Shadow People"),
        (Month::October, 21, "The Fall of Creation", "Enlightenment"),
        (Month::October, 21, "Sissourlet", "Rituals in the Catacombs"),
        (Month::October, 22, "Anialator", "Death Is Calling"),
        (Month::October, 22, "Tarfania", "Where No Wolf Howls..."),
        (Month::October, 22, "Soupir", "Ecoute s'il pleut"),
        (Month::October, 23, "Clandestined", "Dead.....Forever"),
        (Month::October, 23, "Bellfast", "The Warrior Celt"),
        (Month::October, 24, "Lankester Merrin", "Dark Mother's Child"),
        (Month::October, 24, "Bind Torture Kill", "Sauvagerie"),
        (Month::October, 25, "Harpyie", "Voodoo"),
        (Month::October, 25, "Burial Remains", "Adversarial"),
        (Month::October, 25, "The Spirit", "Songs Against Humanity"),
        (Month::October, 25, "Entheos", "An End to Everything"),
        (Month::October, 25, "Triumpher", "Spirit Invictus"),
        (Month::October, 25, "Loudblast", "Altering Fates and Destinies"),
        (Month::October, 25, "Gaerea", "Coma"),
        (Month::October, 25, "Elephant Tree / Lowrider", "The Long Forever"),
        (Month::October, 25, "Haliphron", "Anatomy of Darkness"),
        (Month::October, 25, "Blackevil", "Praise the Communion Fire for the Unhallowed Sacrament"),
        (Month::October, 25, "Challenger", "Force of Nature"),
        (Month::October, 25, "Emasculator", "The Disfigured and the Divine"),
        (Month::October, 25, "Ghosts of Glaciers", "Eternal"),
        (Month::October, 25, "Nuclear", "Violent DNA"),
        (Month::October, 25, "Paysage d'Hiver", "Die Berge"),
        (Month::October, 25, "Leviticus", "MMXXIV"),
        (Month::October, 25, "Schammasch", "The Maldoror Chants: Old Ocean"),
        (Month::October, 25, "Autumn's Grief", "Dead Among the Living"),
        (Month::October, 25, "Ancient Curse", "Dimension 5"),
        (Month::October, 25, "Mindless Sinner", "Metal Merchants"),
        (Month::October, 25, "Disarray", "Religious Disease"),
        (Month::October, 25, "Psychonaut 4", "...of Mourning"),
        (Month::October, 25, "Gigan", "Anomalous Abstractigate Infinitessimus"),
        (Month::October, 25, "Sentient Horror", "In Service of the Dead"),
        (Month::October, 25, "Hatchet", "Leave No Soul"),
        (Month::October, 25, "Athena XIX", "Everflow Part 1: Frames of Humanity"),
        (Month::October, 25, "Iotunn", "Kinship"),
        (Month::October, 25, "Gigan", "The Gigan Cassette Box Set"),
        (Month::October, 25, "Devin Townsend", "PowerNerd"),
        (Month::October, 25, "Turkey Vulture", "On The List"),
        (Month::October, 25, "Smoke / Doomsday Profit", "Smoke // Doomsday Profit"),
        (Month::October, 25, "Taking the Head of Goliath", "Futility of the Flesh"),
        (Month::October, 25, "Antipope", "Doors of the Dead"),
        (Month::October, 25, "Alex Nunziati", "Impending Catastrophe"),
        (Month::October, 25, "Vokonis", "Transitions"),
        (Month::October, 25, "Mercyless", "Those Who Reign Below"),
        (Month::October, 25, "Sedimentum", "Derri​è​re les portes d'une arcane transcendante"),
        (Month::October, 25, "Adamantra", "Act III: Pareidolia of Depravity"),
        (Month::October, 25, "Stilverlight", "Dead Souls"),
        (Month::October, 25, "Perfidious", "Savouring His Flesh"),
        (Month::October, 25, "Bloodletter / Grozov / Acid Mass / Ninth Realm", "Faster than the Devil III"),
        (Month::October, 25, "Ataraxie", "Le déclin"),
        (Month::October, 25, "Thaw", "Fading Backwards"),
        (Month::October, 25, "Behemoth", "XXX Years ov Blasphemy"),
        (Month::October, 25, "Bütcher", "On Fowl of Tyrant Wing"),
        (Month::October, 25, "Blasphemous", "To Lay Siege and Conquer"),
        (Month::October, 25, "Living Gate", "Suffer as One"),
        (Month::October, 25, "Avtotheism", "Reflections of Execrable Stillness"),
        (Month::October, 25, "Vananidr", "In Silence Descent"),
        (Month::October, 25, "Nitrogods", "Valley of the Gods"),
        (Month::October, 25, "Symphony of Heaven", "Ordo Aurum Archeia"),
        (Month::October, 25, "Motörhead", "We Take No Prisoners (The Singles 1995-2006)"),
        (Month::October, 25, "Pounder", "Thunderforged"),
        (Month::October, 25, "Grand Harvest", "Till Förruttnelsen"),
        (Month::October, 25, "Black Curse", "Burning in Celestial Poison"),
        (Month::October, 25, "Deadform", "Entrenched in Hell"),
        (Month::October, 25, "Upiór", "Predator of Fear"),
        (Month::October, 25, "Bog Wizard", "Journey Through the Dying Lands"),
        (Month::October, 25, "Visions of Disfigurement", "Vile Mutation"),
        (Month::October, 25, "Leatherhead", "Leatherhead"),
        (Month::October, 25, "Centinex", "As You Die"),
        (Month::October, 25, "Weep", "The Constant Strain of Life"),
        (Month::October, 25, "Zagan", "Total Suffering"),
        (Month::October, 25, "Recently Vacated Graves: True Zombie Metal", "Musk of Death"),
        (Month::October, 25, "Sordide", "Ainsi finit le jour"),
        (Month::October, 25, "Extermination Dismemberment", "Butcher Basement (Revamp)"),
        (Month::October, 25, "Sallow Moth", "Vial"),
        (Month::October, 25, "Draconicon", "A Symphony of Pestilence"),
        (Month::October, 25, "Mordran", "One​-​and​-​Ninety Years of Darkness"),
        (Month::October, 25, "The Holy Flesh", "Advocate, Martyr and Redeemer"),
        (Month::October, 25, "Intöxicated", "Under the Sign of the Red Light"),
        (Month::October, 25, "Lóstregos", "Nai"),
        (Month::October, 25, "Solarnaut", "There's A Light In The Blur"),
        (Month::October, 25, "The Contagion", "Swept into Nothing"),
        (Month::October, 25, "Traktat", "Dogmatic Accusations"),
        (Month::October, 26, "Helldrifter", "Dark Descent"),
        (Month::October, 26, "Weight Shift", "Haled from Aether"),
        (Month::October, 26, "Darkspell", "Victorious Reminiscent of Darkness"),
        (Month::October, 26, "Messe Noire", "Ceremonial Death"),
        (Month::October, 27, "Sukkubys", "Ma'am, Your Son Is Dead"),
        (Month::October, 27, "Snowman", "Dragon's Heart"),
        (Month::October, 27, "Pratanallis", "雨色Gentiana"),
        (Month::October, 28, "Kaivs", "After the Flesh"),
        (Month::October, 28, "Rotgod", "Polemics and Obscenity - Part 2"),
        (Month::October, 28, "Mental Torment", "Dead Shot Revival"),
        (Month::October, 28, "High Inquisitor Woe", "Painted Vision of an Era Forlorn"),
        (Month::October, 28, "Imagine a Boot", "Fearless Werewolf Killers"),
        (Month::October, 29, "Vulgar Mephitis", "Demo 2024"),
        (Month::October, 30, "Necromoon", "War and Obedience"),
        (Month::October, 30, "Lay of the Autumn", "Of Love and Sorrow"),
        (Month::October, 30, "Weltschmerz", "III: Non Sequitur"),
        (Month::October, 30, "DeadRipper", "Nightmare"),
        (Month::October, 30, "Delusions of Godhood", "Salvation's Withdrawal"),
        (Month::October, 31, "Thine Inner Sanctum", "The Coming of the Dawn"),
        (Month::October, 31, "Misantropical Painforest / W.A.I.L.", "Dare to Venture Down to Earth, Father! Perish into Nothingness"),
        (Month::October, 31, "Aelvica", "Aelvica V: Vengeance"),
        (Month::October, 31, "Asgrauw", "Oorsprong"),
        (Month::October, 31, "Sleepless", "Through Endless Black"),
        (Month::October, 31, "Summoning Death", "Tombs of the Blind Dead"),
        (Month::October, 31, "Goreatorium", "Vile​-​Lence"),
        (Month::October, 31, "Alien Carcass", "Entropic Visions of a Celestial Heaven"),
        (Month::October, 31, "Slechtvalk", "At Death's Gate"),
        (Month::October, 31, "Sorry...", "Drowned in Misery"),
        (Month::October, 31, "Shaarimoth", "Devildom"),
        (Month::October, 31, "Tryblith", "Draconis Maleficium"),
        (Month::October, 31, "Dead Icarus", "Zealot"),
        (Month::October, 31, "Dead Nexus", "Call of the Void"),
        (Month::October, 31, "Mälevolent", "Dark Tranquil Night"),
        (Month::October, 31, "Kre^u / Ticinum / Strja / Vrim", "Voces Antiqui Sanguinis"),
        (Month::October, 31, "Holy Death", "Sad But True"),
        (Month::October, 31, "Foul Body Autopsy", "The Discovery of Witches"),
        (Month::October, 31, "Sausage Wallet", "Vagpire"),
        (Month::October, 31, "Nox Terror", "Frostbound Realm of the Dead"),
        (Month::October, 31, "Picha", "Hecho picha"),
        (Month::October, 31, "Visonfethacsis", "Waltzes in Daguerreotype"),
        (Month::October, 31, "Kerbmaldarr", "V"),
        (Month::November, 1, "Firemage", "Ignis"),
        (Month::November, 1, "Timo Tolkki", "Classical Variations and Themes 2: Ultima Thule"),
        (Month::November, 1, "Frostbite", "Relentless Grief"),
        (Month::November, 1, "Brothers of Metal", "Fimbulvinter"),
        (Month::November, 1, "Bombus", "Your Blood"),
        (Month::November, 1, "Black Aeons", "Entering the Shadows"),
        (Month::November, 1, "Slaughter the Giant", "Abomination"),
        (Month::November, 1, "Carved Memories", "The Moirai"),
        (Month::November, 1, "Vampirska", "A Liminal Heart Paints the Deepest Shade of Serenity"),
        (Month::November, 1, "Tommy Concrete", "Unrelapsed"),
        (Month::November, 1, "Nachtmystium", "Blight Privilege"),
        (Month::November, 1, "Invictus", "Despair"),
        (Month::November, 1, "Stahlkeller", "Huckepack"),
        (Month::November, 1, "Wampyric Rites", "Summoning the Beasts in the Night of Lycanthropic Moon"),
        (Month::November, 1, "Mánþiel", "Odes Past & Mysticism from the Southern Lands"),
        (Month::November, 1, "Paganizer", "Flesh Requiem"),
        (Month::November, 1, "Dragoncorpse", "The Fall of House Abbarath"),
        (Month::November, 1, "Gravekvlt", "Full Moon Fever"),
        (Month::November, 1, "Everto Signum", "Beastiary"),
        (Month::November, 1, "Tribulation", "Sub Rosa in Aeternum"),
        (Month::November, 1, "Viikate", "Hiljainen"),
        (Month::November, 1, "Burning Sky", "Despair Of The Damned"),
        (Month::November, 1, "Skullovich", "The Age of Steel"),
        (Month::November, 1, "Thyrathen", "Lakonic"),
        (Month::November, 1, "Necrotic Divinity", "Morbid Fascination"),
        (Month::November, 1, "Splendidula", "Behind My Semblance"),
        (Month::November, 1, "Anomalie", "Riverchild"),
        (Month::November, 1, "Cień", "Maledicto"),
        (Month::November, 1, "Vessel", "The Somnifer"),
        (Month::November, 1, "Assassin", "Skullblast"),
        (Month::November, 1, "Vimbulnatt", "Der dunklen Tugenden. Der Urgrund"),
        (Month::November, 1, "InnerWish", "Ash of Eternal Flame"),
        (Month::November, 1, "Epitaph", "Path to Oblivion"),
        (Month::November, 1, "Anthesis", "Tension Between Rot and Genesis"),
        (Month::November, 1, "Qaalm", "Grave Impressions of an Unbroken Arc"),
        (Month::November, 1, "From the Vastland", "Tenebrous Shadow"),
        (Month::November, 1, "DreamLongDead", "Derelict"),
        (Month::November, 1, "Rotborn", "Shrapnels of a Panic Spiral"),
        (Month::November, 1, "Mitochondrion", "Vitriseptome"),
        (Month::November, 1, "The Bottle Doom Lazy Band", "Clans of the Alphane Moon"),
        (Month::November, 1, "Dying Hydra", "Strange and Beautiful Things"),
        (Month::November, 1, "Nolove", "Alone / Forgive me..."),
        (Month::November, 1, "Cryptic Brood", "Necrotic Flesh Bacteria"),
        (Month::November, 1, "Methchrist", "Acephalic Thanatocracy"),
        (Month::November, 1, "Crucifixion Ritual", "Desecration of the Angels"),
        (Month::November, 1, "Angantyr", "Indsigt"),
        (Month::November, 1, "Trillion Ton Beryllium Ships", "The Mind Like Fire Unbound"),
        (Month::November, 1, "Ian Highhill", "Death Sentence"),
        (Month::November, 1, "Children of the Frost", "Last Winter's Child"),
        (Month::November, 1, "The Fallen Prophets", "Primordial Instinct"),
        (Month::November, 1, "Frankenbok", "Demon Tantrum"),
        (Month::November, 1, "Putridarium", "Necrologia del sadismo: Excerpts from a Deranged Mind"),
        (Month::November, 1, "Recidivist", "Madness Malformed"),
        (Month::November, 1, "Drift of Genes", "Room"),
        (Month::November, 2, "Ethereal", "Downfall"),
        (Month::November, 2, "Lenguaje de Viboras", "Kira"),
        (Month::November, 2, "Raptore", "Renaissance"),
        (Month::November, 2, "Abomination Impurity", "Crawling In The Depth"),
        (Month::November, 3, "Deadspace", "The Dark Enlightenment"),
        (Month::November, 3, "Steam Slicer", "Beyond the Rivers"),
        (Month::November, 6, "Naoki Morioka", "Absolutes"),
        (Month::November, 7, "Suidakra", "Darkanakrad"),
        (Month::November, 8, "Tungsten", "The Grand Inferno"),
        (Month::November, 8, "Distant Past", "Solaris"),
        (Month::November, 8, "Earthburner", "Permanent Dawn"),
        (Month::November, 8, "Klone", "The Unseen"),
        (Month::November, 8, "Molder", "Catastrophic Reconfiguration"),
        (Month::November, 8, "Make Them Suffer", "Make Them Suffer"),
        (Month::November, 8, "Sólstafir", "Hin helga kv​ö​l"),
        (Month::November, 8, "Yoth Iria", "Blazing Inferno"),
        (Month::November, 8, "Valontuoja", "Luonnon armoilla"),
        (Month::November, 8, "Ad Vitam Infernal", "Le ballet des anges"),
        (Month::November, 8, "The Body", "The Crying Out of Things"),
        (Month::November, 8, "Delain", "Dance with the Devil"),
        (Month::November, 8, "Witchpit", "Forever Spoken"),
        (Month::November, 8, "Chaos Invocation", "Wherever We Roam..."),
        (Month::November, 8, "Paragon", "Metalation"),
        (Month::November, 8, "Massacre", "Necrolution"),
        (Month::November, 8, "Witnesses", "Joy"),
        (Month::November, 8, "Impellitteri", "War Machine"),
        (Month::November, 8, "Stranger Vision", "Faust - Act​​ I Prelude to Darkness"),
        (Month::November, 8, "Codespeaker", "Scavenger"),
        (Month::November, 8, "Alarum", "Recontinue"),
        (Month::November, 8, "Ershetu", "Yomi"),
        (Month::November, 8, "Disparaged", "Down the Heavens"),
        (Month::November, 8, "Moss upon the Skull", "Quest for the Secret Fire"),
        (Month::November, 8, "Ploughshare", "Second Wound"),
        (Month::November, 8, "Shrykull", "Beyond Subconscious Realms"),
        (Month::November, 8, "Valkyrie's Fire", "Ascension"),
        (Month::November, 8, "Seven Kingdoms", "The Square"),
        (Month::November, 8, "Legendarium", "For Eternal Glory"),
        (Month::November, 8, "Tenebrisme", "Sisyphe"),
        (Month::November, 8, "Nurcry", "Renacer"),
        (Month::November, 9, "Morgue Walker", "No One Left Alive"),
        (Month::November, 10, "Hamerhaai", "Tand om Tand"),
        (Month::November, 11, "Blaze the Thunder", "The Bewildered Herd"),
        (Month::November, 11, "Forja", "Món oblidat"),
        (Month::November, 11, "Super Monster Party", "Rage Quit"),
        (Month::November, 11, "Succumbence", "Succumbence"),
        (Month::November, 12, "Apocryphal", "Facing the End"),
        (Month::November, 12, "Gauntlet Rule", "After the Kill"),
        (Month::November, 12, "Space Mirrors", "Nexus Between Space and Art"),
        (Month::November, 12, "A la Carte", "Born to Entertain"),
        (Month::November, 12, "Doubting Thompson", "Lizard Brain Directives"),
        (Month::November, 13, "Incisor", "Harvester Of Indecent Letany"),
        (Month::November, 14, "Kromlek", "III-III & Upphaf"),
        (Month::November, 14, "Lying Figures", "Inheritance"),
        (Month::November, 15, "Warfarer", "A Tale Beyond the Pale"),
        (Month::November, 15, "Odyrmos", "The Neverending Journey"),
        (Month::November, 15, "Aptorian Demon", "Liv tar slutt"),
        (Month::November, 15, "Thy Catafalque", "XII: A gyönyörü álmok ezután jönnek"),
        (Month::November, 15, "Toxaemia", "Rejected Souls of Kerberus"),
        (Month::November, 15, "Veilburner", "The Duality of Decapitation and Wisdom"),
        (Month::November, 15, "Starchaser", "Into the Great Unknown"),
        (Month::November, 15, "The Foreshadowing", "New Wave Order"),
        (Month::November, 15, "The Mosaic Window", "Hemasanctum"),
        (Month::November, 15, "Mammoth Grinder", "Undying Spectral Resonance"),
        (Month::November, 15, "Tribal Gaze / Deadbody", "Deadbody / Tribal Gaze"),
        (Month::November, 15, "Monolithe", "Black Hole District"),
        (Month::November, 15, "As I Lay Dying", "Through Storms Ahead"),
        (Month::November, 15, "Faüst", "Death Galore"),
        (Month::November, 15, "Worm Shepherd", "Hunger"),
        (Month::November, 15, "Thanatos", "Four Decades of Death"),
        (Month::November, 15, "Synthwailer", "Cruciform"),
        (Month::November, 15, "Nolove", "La mort nous a séparés"),
        (Month::November, 15, "Empires of Eden", "Guardians of Time"),
        (Month::November, 15, "Time Lurker", "Emprise"),
        (Month::November, 15, "Trollcave", "Adoration of the Abyssal Trespasser"),
        (Month::November, 15, "Wasted Youth", "Young and Bored - The Complete Wasted Youth"),
        (Month::November, 15, "Primal Code", "Opaque Fixation"),
        (Month::November, 15, "Opus Irae", "Into the Endless Night"),
        (Month::November, 15, "Spider God", "Possess the Devil"),
        (Month::November, 15, "Thunder and Lightning", "Of Wrath and Ruin"),
        (Month::November, 15, "Apocalypse", " Pandæmonium"),
        (Month::November, 15, "Oriska", "Oriska"),
        (Month::November, 15, "Violent Definition", "Progressive Obsoletion"),
        (Month::November, 15, "Sergeant Thunderhoof", "The Ghost of Badon Hill"),
        (Month::November, 19, "Miseri Silentium", "Live at Darkness Conspiracy 2024"),
        (Month::November, 19, "Stenched", "Purulence Gushing from the Coffin"),
        (Month::November, 19, "Chain Wolf / Nuke / Evil Army / Whipstriker", "Metal Punk, Vol. I"),
        (Month::November, 20, "Sunrot / Body Void", "SUNROT // BODY VOID"),
        (Month::November, 20, "Machete Tactics", "Infinite Terror"),
        (Month::November, 21, "Accu§er", "Rebirthless"),
        (Month::November, 22, "Exuvial", "The Hive Mind Chronicles Part I - Parasitica"),
        (Month::November, 22, "Opeth", "The Last Will and Testament"),
        (Month::November, 22, "Fellowship", "The Skies Above Eternity"),
        (Month::November, 22, "Maat", "From Origin to Decay"),
        (Month::November, 22, "Defeated Sanity", "Chronicles of Lunacy"),
        (Month::November, 22, "Silent Winter", "Utopia"),
        (Month::November, 22, "10,000 Years", "All Quiet on the Final Frontier"),
        (Month::November, 22, "Sign of the Jackal", "Heavy Metal Survivors"),
        (Month::November, 22, "Ante-Inferno", "Death's Soliloquy"),
        (Month::November, 22, "Dawn of Destiny", "IX"),
        (Month::November, 22, "High Warden", "Astral Iron"),
        (Month::November, 22, "Iniquitous Savagery", "Edifice of Vicissitudes"),
        (Month::November, 22, "Orso", "Caffè?"),
        (Month::November, 22, "Aeon Gods", "King of Gods"),
        (Month::November, 22, "Tyrannic", "Tyrannic Desolation"),
        (Month::November, 22, "Panzerfaust", "The Suns of Perdition - Chapter IV: To Shadow Zion"),
        (Month::November, 22, "Artery", "Last Chance"),
        (Month::November, 22, "Slať", "Elegie propastná"),
        (Month::November, 22, "Repuked", "Club Squirting Blood"),
        (Month::November, 22, "Carnal Savagery", "Graveworms, Cadavers, Coffins and Bones"),
        (Month::November, 22, "Xandria", "Universal Tales"),
        (Month::November, 22, "DeadlySins", "Age of Revelation"),
        (Month::November, 22, "Gutless", "High Impact Violence"),
        (Month::November, 22, "KingCrown", "Nova Atlantis"),
        (Month::November, 22, "Golgothan Remains", "Bearer of Light, Matriarch of Death"),
        (Month::November, 22, "Kruelty", "Profane Usurpation"),
        (Month::November, 24, "Echoes of Gehenna", "The Dreaming Void"),
        (Month::November, 25, "Grapeshot", "Oblivion"),
        (Month::November, 26, "Soulskinner", "Gloryfied by the Light"),
        (Month::November, 27, "Old Wainds", "Stormheart"),
        (Month::November, 27, "Empty Throne", "Unholy"),
        (Month::November, 27, "Endemic", "Fetid Plagues"),
        (Month::November, 27, "Fessus / Kill the Lord", "Decrowned II: Trinity Ablaze / Pilgrims of Morbidity"),
        (Month::November, 28, "Völva", "Desires Profane"),
        (Month::November, 29, "Brimstone", "Brimstone"),
        (Month::November, 29, "Frostmoon Eclipse", "Funerals of Old"),
        (Month::November, 29, "Hidden Mothers", "Erosion / Avulsion"),
        (Month::November, 29, "Noitasapatti", "Sankarin matka"),
        (Month::November, 29, "Ritual Fog", "But Merely Flesh"),
        (Month::November, 29, "Vargålder", "Framåt skrider dödens tider"),
        (Month::November, 29, "Konkhra", "Sad Plight of Lucifer"),
        (Month::November, 29, "Mezmerizer", "Whispers of Leviathan"),
        (Month::November, 29, "The Gates of Slumber", "The Gates of Slumber"),
        (Month::November, 29, "Fire Action", "Until the Heat Dies"),
        (Month::November, 29, "Nolove", "Nostalgia"),
        (Month::November, 29, "Inverted Cross", "Eternal Flames of Hell"),
        (Month::November, 29, "Festergore", "Constellation of Endless Blight"),
        (Month::November, 29, "Mefitis", "The Skorian // The Greyleer"),
        (Month::November, 29, "Cryptorium", "Descent into Lunacy"),
        (Month::November, 29, "Havoc", "The Demos"),
        (Month::November, 29, "Steel Inferno", "Rush of Power"),
        (Month::November, 29, "Dark Embrace", "Land of Witches"),
        (Month::November, 29, "Feral Forms", "Through Demonic Spell"),
        (Month::November, 29, "Pestilent Hex", "Sorceries of Sanguine & Shadow"),
        (Month::November, 29, "Vidres a la Sang", "Virtut del desencís"),
        (Month::November, 29, "Starmonger", "Occultation"),
        (Month::November, 29, "Nebelkrähe", "Entfremdet (2024)"),
        (Month::November, 29, "Eard", "Melancholia"),
        (Month::November, 29, "Scythrow", "Blameless Severed Extremities"),
        (Month::November, 29, "Filii Nigrantium Infernalium", "Pérfida Contracção do Aço"),
        (Month::November, 29, "Necronomicon Ex Mortis", "The Mother of Death"),
        (Month::November, 29, "Thy Legion", "Grand Cosmic Funeral"),
        (Month::November, 29, "Droid Killer", "Delete Everything"),
        (Month::November, 29, "Gorgon", "For Those Who Stay"),
        (Month::November, 30, "Funereality", "Through the Black Holes of the Dead"),
        (Month::November, 30, "Heathen Deity", "Satan's Kingdom"),
        (Month::November, 30, "Deheubarth", "Revel in Occult Chambers"),
        (Month::November, 30, "Duister Maanlicht", "Werken van de duisternis"),
        (Month::December, 1, "Nordic Twilight", "Nordic Twilight"),
        (Month::December, 1, "Caixão", "Demos 2017 - 2024"),
        (Month::December, 5, "Horrorborn", "Illuminating Doom"),
        (Month::December, 6, "Fermentor", "Release Me"),
        (Month::December, 6, "Asterise", "Tale of a Wandering Soul"),
        (Month::December, 6, "Nanowar of Steel", "XX Years of Steel"),
        (Month::December, 6, "The Old Dead Tree", "Second Thoughts"),
        (Month::December, 6, "Pillar of Light", "Caldera"),
        (Month::December, 6, "Nolove", "Nobody Can Save You"),
        (Month::December, 6, "Tethra", "Withered Heart Standing"),
        (Month::December, 6, "Night in Gales", "Shadowreaper"),
        (Month::December, 6, "Within Silence", "The Eclipse of Worlds"),
        (Month::December, 6, "Tarja", "Rocking Heels: Live at Hellfest"),
        (Month::December, 6, "Aara", "Eiger"),
        (Month::December, 6, "Panzerchrist", "Maleficium - Part 1"),
        (Month::December, 6, "Tales of Blood", "Breath of Repugnance"),
        (Month::December, 6, "Desert Near the End", "Tides of Time"),
        (Month::December, 7, "STP", "Maoist Jihad: Death to Collaborators"),
        (Month::December, 12, "New Mexican Doom Cult", "From the Crypt"),
        (Month::December, 12, "Kombat / False Mutation", "Monument of Abomination"),
        (Month::December, 13, "Mörk Gryning", "Fasornas tid"),
        (Month::December, 13, "Injector", "Endless Scorn"),
        (Month::December, 13, "A Dead Poem", "Abstract Existence"),
        (Month::December, 13, "Magic Kingdom", "Blaze of Rage"),
        (Month::December, 13, "Misanthropy", "The Ever​-​Crushing Weight of Stagnance"),
        (Month::December, 15, "Grollheim", "Funebres Nuptiae"),
        (Month::December, 20, "Vinodium", "¿En que mundo vivimos?"),
        (Month::December, 20, "Lights to Remain", "Damnation"),
        (Month::December, 20, "Hexenbrett", "Dritte Beschw​ö​rung: Dem Teufel eine Tochter"),
        (Month::December, 27, "Bolvag", "Sad Dark Descent into the Dungeon Dream"),
        (Month::December, 27, "Dominum", "The Dead Don't Die"),
        (Month::December, 28, "Nicolas Waldo", "World on Fire"),
    ];
    run_scrape(&entries, 2024);
}

#[test]
fn metallum_test_2025_calendar_ok() {
    let entries: Vec<(Month, u8, &str, &str)> = vec![
        (Month::January, 1, "Death Cult 69", "The Way of All Flesh"),
        (Month::January, 1, "Estuarine", "Corporeal Furnace"),
        (Month::January, 1, "Hazzerd", "The 3rd Dimension"),
        (Month::January, 3, "Aeonian Sorrow", "From the Shadows"),
        (Month::January, 3, "Faidra", "Dies Irae"),
        (Month::January, 10, "The Halo Effect", "March of the Unheard"),
        (Month::January, 17, "Grave Digger", "Bone Collector"),
        (Month::January, 17, "Tokyo Blade", "Time Is the Fire"),
        (Month::January, 17, "Pestilent Scars", "Meadows of Misfortune"),
        (Month::January, 24, "Harakiri for the Sky", "Scorched Earth"),
        (Month::January, 24, "Avatarium", "Between You, God, the Devil and the Dead"),
        (Month::January, 24, "Wardruna", "Birna"),
        (Month::February, 14, "Atlas Ashes", "New World"),
        (Month::February, 14, "Lacuna Coil", "Sleepless Empire"),
        (Month::February, 21, "Defiled Serenity", "Within the Slumber of the Mind"),
        (Month::February, 28, "Dimman", "Consciousness"),
        (Month::February, 28, "Timecode", "La Ruptura Del Equilibrio"),
        (Month::March, 28, "Arch Enemy", "Blood Dynasty"),
    ];
    run_scrape(&entries, 2025);
}
