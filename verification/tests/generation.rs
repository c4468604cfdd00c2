use mapgen::dijkstra::DijkstraMap;
use mapgen::filter::{
    AreaStartingPosition, BspInterior, CellularAutomata, CullUnreachable, DistantExit,
    NoiseGenerator, VoronoiHive, XStart, YStart,
};
use mapgen::{MapBuilder, MapFilter, NoData, Point, RngSource, Tile, TileMap};

#[test]
fn test_exit() {
    let map_str = "
        ##########
        #        #
        #  #     #
        ##########
        ";
    let mut map = TileMap::<NoData>::from_string(map_str);
    map.starting_point = Some(Point::new(9, 2));

    let modifier = DistantExit::new();
    let mut rng = RngSource::from_seed(0);
    let new_map = modifier.modify_map(&mut rng, &map);

    assert_eq!(new_map.exit_point, Some(Point::new(1, 2)));
}

#[test]
fn distance_field_exact_values() {
    let map_str = "
        ##########
        #        #
        #  #     #
        ##########
        ";
    let mut map = TileMap::<NoData>::from_string(map_str);
    map.starting_point = Some(Point::new(9, 2));
    let d = DijkstraMap::new(&map);
    assert_eq!(d.tiles[map.xy_idx(9, 2)], Some(0));
    assert_eq!(d.tiles[map.xy_idx(8, 2)], Some(1));
    assert_eq!(d.tiles[map.xy_idx(8, 1)], Some(2));
    assert_eq!(d.tiles[map.xy_idx(1, 2)], Some(10));
    // walls other than the source stay unreached
    assert_eq!(d.tiles[map.xy_idx(0, 0)], None);
    assert_eq!(d.tiles[map.xy_idx(3, 2)], None);
}

#[test]
fn distance_field_without_start_is_unreached() {
    let map = TileMap::<NoData>::new(4, 3);
    let d = DijkstraMap::new(&map);
    assert_eq!(d.tiles.len(), 12);
    assert!(d.tiles.iter().all(|t| t.is_none()));
}

#[test]
fn voronoi_keeps_dimensions() {
    let mut rng = RngSource::from_seed(100);
    let gen = VoronoiHive::new();
    let map = gen.modify_map(&mut rng, &TileMap::<NoData>::new(80, 50));
    assert_eq!(map.width, 80);
    assert_eq!(map.height, 50);
}

#[test]
fn voronoi_seeds_distinct_and_inside() {
    let mut rng = RngSource::from_seed(3);
    let gen = VoronoiHive::new();
    let seeds = gen.generate_seeds(&mut rng, 80, 50);
    assert_eq!(seeds.len(), 64);
    for (i, s) in seeds.iter().enumerate() {
        assert!(1 <= s.x && s.x < 80);
        assert!(1 <= s.y && s.y < 50);
        for t in &seeds[..i] {
            assert!(!(t.x == s.x && t.y == s.y));
        }
    }
}

#[test]
fn builds_are_deterministic() {
    let builder = MapBuilder::<NoData>::new(20, 20)
        .with(NoiseGenerator::uniform())
        .with(CellularAutomata::new())
        .with(AreaStartingPosition::new(XStart::CENTER, YStart::CENTER))
        .with(CullUnreachable::new());
    let mut rng1 = RngSource::from_seed(907647352);
    let map1 = builder.build(&mut rng1);
    let mut rng2 = RngSource::from_seed(907647352);
    let map2 = builder.build(&mut rng2);
    assert_eq!(map1.width, map2.width);
    assert_eq!(map1.height, map2.height);
    assert_eq!(map1.tiles, map2.tiles);
    assert_eq!(map1.starting_point, map2.starting_point);
    assert_eq!(map1.exit_point, map2.exit_point);
}

#[test]
fn noise_extreme_probabilities() {
    let map = TileMap::<NoData>::new(5, 4);
    let mut rng = RngSource::from_seed(9);
    let all_floor = NoiseGenerator::new(100).modify_map(&mut rng, &map);
    assert!(all_floor.tiles.iter().all(|t| *t == Tile::Floor));
    let all_wall = NoiseGenerator::new(0).modify_map(&mut rng, &map);
    assert!(all_wall.tiles.iter().all(|t| *t == Tile::Wall));
}

#[test]
fn cellular_automata_rules() {
    // a lone floor cell walled in on all eight sides closes
    let closed = TileMap::<NoData>::from_string("###\n#.#\n###");
    let mut rng = RngSource::from_seed(1);
    let out = CellularAutomata::new().modify_map(&mut rng, &closed);
    assert_eq!(out.get_tile(1, 1), Tile::Wall);
    // an interior cell with no wall neighbors opens
    let open = TileMap::<NoData>::from_string("...\n.#.\n...");
    let out2 = CellularAutomata::new().modify_map(&mut rng, &open);
    assert_eq!(out2.get_tile(1, 1), Tile::Floor);
    // the border ring is never touched
    assert_eq!(out2.get_tile(0, 0), Tile::Floor);
    assert_eq!(out.get_tile(0, 0), Tile::Wall);
}

#[test]
fn cull_unreachable_removes_pockets() {
    let mut map = TileMap::<NoData>::from_string("#####\n#.#.#\n#####");
    map.starting_point = Some(Point::new(1, 1));
    let mut rng = RngSource::from_seed(2);
    let out = CullUnreachable::new().modify_map(&mut rng, &map);
    assert_eq!(out.get_tile(1, 1), Tile::Floor);
    assert_eq!(out.get_tile(3, 1), Tile::Wall);
}

#[test]
fn cull_without_start_walls_everything() {
    let map = TileMap::<NoData>::from_string("###\n#.#\n###");
    let mut rng = RngSource::from_seed(2);
    let out = CullUnreachable::new().modify_map(&mut rng, &map);
    assert!(out.tiles.iter().all(|t| *t == Tile::Wall));
}

#[test]
fn starting_position_picks_nearest_floor() {
    let map = TileMap::<NoData>::from_string("####\n#..#\n####");
    let mut rng = RngSource::from_seed(4);
    let out = AreaStartingPosition::new(XStart::LEFT, YStart::TOP).modify_map(&mut rng, &map);
    assert_eq!(out.starting_point, Some(Point::new(1, 1)));
    let out2 = AreaStartingPosition::new(XStart::RIGHT, YStart::BOTTOM).modify_map(&mut rng, &map);
    assert_eq!(out2.starting_point, Some(Point::new(2, 1)));
}

#[test]
fn starting_position_on_all_wall_map_is_kept() {
    let map = TileMap::<NoData>::new(4, 4);
    let mut rng = RngSource::from_seed(4);
    let out = AreaStartingPosition::new(XStart::CENTER, YStart::CENTER).modify_map(&mut rng, &map);
    assert_eq!(out.starting_point, None);
}

#[test]
fn distant_exit_without_positive_distance_uses_origin() {
    // the starting cell is the only reachable cell
    let mut map = TileMap::<NoData>::new(3, 3);
    map.starting_point = Some(Point::new(1, 1));
    let mut rng = RngSource::from_seed(5);
    let out = DistantExit::new().modify_map(&mut rng, &map);
    assert_eq!(out.exit_point, Some(Point::new(0, 0)));
}

#[test]
fn render_writes_one_glyph_per_cell() {
    let map = TileMap::<NoData>::new(2, 1);
    assert_eq!(map.render(), "##\n".to_string());
    let map2 = TileMap::<NoData>::from_string("#.\n.#");
    assert_eq!(map2.render(), "#.\n.#\n".to_string());
}

#[test]
fn fixture_round_trip() {
    let map_str = "
        ##########
        #        #
        #  #     #
        ##########
        ";
    let map = TileMap::<NoData>::from_string(map_str);
    assert_eq!(map.width, 10);
    assert_eq!(map.height, 4);
    let rendered = map.render();
    let again = TileMap::<NoData>::from_string(&rendered);
    assert_eq!(again.width, map.width);
    assert_eq!(again.height, map.height);
    assert_eq!(again.tiles, map.tiles);
}

#[test]
fn bsp_interior_carves_rooms_with_margin() {
    let mut rng = RngSource::from_seed(907647352);
    let gen = BspInterior::new();
    let map = gen.modify_map(&mut rng, &TileMap::<NoData>::new(30, 20));
    assert_eq!(map.width, 30);
    assert_eq!(map.height, 20);
    // some room was carved
    assert!(map.tiles.iter().any(|t| *t == Tile::Floor));
    // rooms keep their margin inside leaves, which tile the map: the whole
    // outer ring stays wall
    for x in 0..30 {
        assert_eq!(map.get_tile(x, 0), Tile::Wall);
        assert_eq!(map.get_tile(x, 19), Tile::Wall);
    }
    for y in 0..20 {
        assert_eq!(map.get_tile(0, y), Tile::Wall);
        assert_eq!(map.get_tile(29, y), Tile::Wall);
    }
}

#[test]
fn bsp_interior_leaves_small_maps_alone() {
    let mut rng = RngSource::from_seed(1);
    let gen = BspInterior::new();
    let map = gen.modify_map(&mut rng, &TileMap::<NoData>::new(4, 4));
    assert!(map.tiles.iter().all(|t| *t == Tile::Wall));
}

#[test]
fn degenerate_fixture_falls_back_to_one_cell() {
    let map = TileMap::<NoData>::from_string("");
    assert_eq!(map.width, 1);
    assert_eq!(map.height, 1);
    assert_eq!(map.tiles, vec![Tile::Wall]);
    let blank = TileMap::<NoData>::from_string("   \n  \n");
    assert_eq!(blank.width, 1);
    assert_eq!(blank.height, 1);
}

#[test]
fn rand_range_stays_inside_bounds() {
    let mut rng = RngSource::from_seed(11);
    for _ in 0..200 {
        let v = rng.rand_range(5, 10);
        assert!((5..=10).contains(&v));
    }
}

#[test]
fn blank_builder_yields_walled_canvas() {
    let builder = MapBuilder::<NoData>::new(6, 5);
    let mut rng = RngSource::from_seed(0);
    let map = builder.build(&mut rng);
    assert_eq!(map.width, 6);
    assert_eq!(map.height, 5);
    assert!(map.tiles.iter().all(|t| *t == Tile::Wall));
    assert_eq!(map.starting_point, None);
    assert_eq!(map.exit_point, None);
}
